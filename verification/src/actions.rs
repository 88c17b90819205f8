//! The event-driven actions: directional focus movement with its
//! ascend/descend search and history override, resizing, zooming, and the
//! pointer hit test.

use vstd::prelude::*;

use crate::Dir;
use crate::HistoryEntry;
use crate::Id;
use crate::Mux;
use crate::Node;
use crate::XY;
use crate::node::axis_extent;
use crate::node::offset_dec_ok;
use crate::node::offset_inc_ok;
use crate::path::SearchPath;
use crate::tree::attached_in;
use crate::tree::is_ancestor;
use crate::tree::lemma_attached_frame_all;
use crate::tree::lemma_attached_step;
use crate::tree::node_ok;
use crate::tree::parent_in_range;
use crate::tree::reaches_node;
use crate::tree::reaches_root;

verus! {

/// Whether a remembered move may serve as a return destination: its source
/// must still be an attached, focusable leaf.
pub open spec fn hist_goal_valid(m: Mux, g: Id) -> bool {
    &&& (g as int) < m.nodes@.len()
    &&& attached_in(m.nodes@, m.root, g)
    &&& m.nodes@[g as int].pane is Some
    &&& m.nodes@[g as int].pane.unwrap().focusable
}

/// The history override: scanning the remembered moves newest first, the
/// first valid entry that had left the present origin in the exact
/// opposite direction names the pane to return to.
pub open spec fn hist_hit(m: Mux, hist: Seq<HistoryEntry>, origin: Id, direction: Dir) -> Option<
    Id,
>
    decreases hist.len(),
{
    if hist.len() == 0 {
        None
    } else {
        let e = hist.last();
        if e.to == origin && e.direction == direction.invert() && hist_goal_valid(m, e.from) {
            Some(e.from)
        } else {
            hist_hit(m, hist.drop_last(), origin, direction)
        }
    }
}

/// A bounded record: the new entry goes in at the newest end and the
/// oldest entry falls out once the capacity is passed.
pub open spec fn push_evict(h: Seq<HistoryEntry>, e: HistoryEntry, cap: int) -> Seq<
    HistoryEntry,
> {
    let pushed = h.push(e);
    if pushed.len() > cap {
        pushed.subrange(1, pushed.len() as int)
    } else {
        pushed
    }
}

/// One descent step of the search, as a value: nothing on an axis
/// mismatch or a childless node; on a split sharing the turn point's
/// orientation the step crosses to the side opposite the recorded one, on
/// any other split it keeps the recorded side.
pub open spec fn spec_single_step(
    nodes: Seq<Node>,
    action: SearchPath,
    turn_point: Id,
    cur_node: Id,
) -> Option<Id> {
    let o = nodes[cur_node as int].orientation;
    if action.spec_orientation() != o {
        None
    } else {
        let crossing = o == nodes[turn_point as int].orientation;
        let want_first = action.spec_is_forward() == crossing;
        let ch = nodes[cur_node as int].children@;
        if ch.len() == 0 {
            None
        } else if want_first {
            Some(ch[0])
        } else {
            Some(ch[ch.len() - 1])
        }
    }
}

/// The ascend phase, as a value: from the child `from` of `cur`, record
/// the side `cur` is left from; where `cur` lies on the direction's axis
/// and that side points away from the direction, `cur` is the turn point;
/// otherwise the climb continues, and it fails where the root is passed.
/// Any fuel at least the length of `cur`'s chain to the root gives the
/// same answer.
pub open spec fn spec_search_step(
    nodes: Seq<Node>,
    direction: Dir,
    from: Id,
    cur: Id,
    path: Seq<SearchPath>,
    fuel: nat,
) -> Option<(Seq<SearchPath>, Id)>
    decreases fuel,
{
    let o = nodes[cur as int].orientation;
    let from_first = nodes[cur as int].children@[0] == from;
    let path2 = path.push(SearchPath::spec_from_side(o, from_first));
    let matches_axis = o == direction.spec_orientation();
    if matches_axis && from_first != !direction.spec_is_forward() {
        Some((path2, cur))
    } else {
        match nodes[cur as int].parent {
            Some(p) => if fuel == 0 {
                None
            } else {
                spec_search_step(nodes, direction, cur, p, path2, (fuel - 1) as nat)
            },
            None => None,
        }
    }
}

/// Replaying the recorded path downward from the turn point, as a value:
/// steps are taken newest first; a missing step truncates the rest of the
/// path.
pub open spec fn spec_walk_path(
    nodes: Seq<Node>,
    path: Seq<SearchPath>,
    turn_point: Id,
    cur: Id,
) -> Id
    decreases path.len(),
{
    if path.len() == 0 {
        cur
    } else {
        match spec_single_step(nodes, path.last(), turn_point, cur) {
            Some(nxt) => spec_walk_path(nodes, path.drop_last(), turn_point, nxt),
            None => cur,
        }
    }
}

/// The final descent towards the side the move came from, as a value: it
/// stops at a pane; an axis-matching split yields the child nearest the
/// origin, any other split its first child; a childless split yields
/// nothing. The fuel matches the walk's own bound.
pub open spec fn spec_descend(nodes: Seq<Node>, direction: Dir, cur: Id, fuel: nat) -> Option<Id>
    decreases fuel,
{
    if nodes[cur as int].pane is Some {
        Some(cur)
    } else if fuel == 0 {
        None
    } else {
        let ch = nodes[cur as int].children@;
        if ch.len() == 0 {
            None
        } else {
            let want_first = if nodes[cur as int].orientation == direction.spec_orientation() {
                direction.spec_is_forward()
            } else {
                true
            };
            spec_descend(
                nodes,
                direction,
                if want_first {
                    ch[0]
                } else {
                    ch[ch.len() - 1]
                },
                (fuel - 1) as nat,
            )
        }
    }
}

/// The whole descend phase, as a value: the recorded path is replayed, a
/// valid remembered reverse move overrides everything, and otherwise the
/// descent continues from wherever the replay stopped.
pub open spec fn spec_traverse(
    m: Mux,
    path: Seq<SearchPath>,
    turn_point: Id,
    direction: Dir,
    origin: Id,
) -> Option<Id> {
    let after = spec_walk_path(m.nodes@, path, turn_point, turn_point);
    match hist_hit(m, m.history@, origin, direction) {
        Some(g) => Some(g),
        None => spec_descend(m.nodes@, direction, after, m.nodes@.len() as nat),
    }
}

/// The ascend phase launched from a node, as a value: nothing moves out
/// of a parentless node; otherwise the climb starts at its parent, with
/// the fuel that parent's chain affords.
pub open spec fn spec_search_from(m: Mux, direction: Dir, from: Id) -> Option<
    (Seq<SearchPath>, Id),
> {
    match m.nodes@[from as int].parent {
        Some(par) => {
            let n = choose|n: nat| reaches_root(m.nodes@, m.root, par, n);
            spec_search_step(m.nodes@, direction, from, par, Seq::empty(), n)
        },
        None => None,
    }
}

/// One whole move with acceptance retry, as a value: search and descend
/// from `cur`; a destination that rejects focus becomes the next starting
/// point while the origin stays fixed for the history; the fuel bounds
/// the retries.
pub open spec fn spec_move_outcome(m: Mux, direction: Dir, cur: Id, origin: Id, fuel: nat) -> Option<
    Id,
>
    decreases fuel,
{
    if fuel == 0 {
        None
    } else {
        match spec_search_from(m, direction, cur) {
            None => None,
            Some(pt) => match spec_traverse(m, pt.0, pt.1, direction, origin) {
                None => None,
                Some(f) => if m.nodes@[f as int].pane is Some && m.nodes@[
                    f as int].pane.unwrap().focusable {
                    Some(f)
                } else {
                    spec_move_outcome(m, direction, f, origin, (fuel - 1) as nat)
                },
            },
        }
    }
}

/// The split a resize adjusts, as a value: the nearest ancestor of `cur`
/// whose orientation lies on the direction's axis, if any. Any fuel at
/// least the length of `cur`'s chain to the root gives the same answer.
pub open spec fn spec_resize_target(nodes: Seq<Node>, direction: Dir, cur: Id, fuel: nat) -> Option<
    Id,
>
    decreases fuel,
{
    match nodes[cur as int].parent {
        None => None,
        Some(q) => if nodes[q as int].orientation == direction.spec_orientation() {
            Some(q)
        } else if fuel == 0 {
            None
        } else {
            spec_resize_target(nodes, direction, q, (fuel - 1) as nat)
        },
    }
}

/// Whether a split's ratio offset may take one step in `direction`: a
/// laid-out total size is known and the guarded offset step is allowed
/// against it.
pub open spec fn spec_offset_move_ok(nd: Node, direction: Dir) -> bool {
    &&& nd.total_size is Some
    &&& {
        let t = axis_extent(nd.total_size.unwrap(), direction.spec_orientation());
        let off = nd.split_ratio_offset as int;
        if direction.spec_is_forward() {
            offset_inc_ok(t, off)
        } else {
            offset_dec_ok(t, off)
        }
    }
}

/// The depth-first hit scan, as a value: nodes are taken from the top of
/// the work stack, the first whose laid-out rectangle takes the point is
/// the hit, and a node's children go onto the stack first child topmost.
/// The fuel matches the scan's own bound.
pub open spec fn spec_hit_scan(nodes: Seq<Node>, mp: XY, stack: Seq<Id>, fuel: nat) -> Option<Id>
    decreases fuel, stack.len(),
{
    if stack.len() == 0 {
        None
    } else {
        let cur = stack.last();
        if nodes[cur as int].spec_click(mp) {
            Some(cur)
        } else if fuel == 0 {
            None
        } else {
            spec_hit_scan(
                nodes,
                mp,
                stack.drop_last() + nodes[cur as int].children@.reverse(),
                (fuel - 1) as nat,
            )
        }
    }
}

impl Mux {
    /// Toggles the single-pane zoom mode and reports the event consumed.
    pub fn zoom_focus(&mut self) -> (consumed: bool)
        requires
            old(self).wf(),
        ensures
            final(self).wf(),
            consumed,
            *final(self) == (Mux { zoomed: !old(self).zoomed, invalidated: true, ..*old(self) }),
    {
        self.zoomed = !self.zoomed;
        self.invalidated = true;
        true
    }

    /// The pointer hit test: an attached node, found in depth-first order,
    /// whose laid-out rectangle takes the point. Disabled while zoomed.
    #[verifier::loop_isolation(false)]
    pub fn clicked_pane(&self, mp: XY) -> (r: Option<Id>)
        requires
            self.wf(),
        ensures
            r == (if self.zoomed {
                Option::<Id>::None
            } else {
                spec_hit_scan(self.nodes@, mp, seq![self.root], self.nodes@.len() as nat)
            }),
            match r {
                Some(id) => {
                    &&& !self.zoomed
                    &&& self.is_attached(id)
                    &&& self.nodes@[id as int].spec_click(mp)
                },
                None => true,
            },
    {
        if self.zoomed {
            return None;
        }
        let ghost nodes = self.nodes@;
        let ghost root = self.root;
        let mut stack: Vec<Id> = Vec::new();
        stack.push(self.root);
        proof {
            assert(reaches_root(nodes, root, root, 0nat));
            assert(stack@ =~= seq![root]);
        }
        let ghost full = spec_hit_scan(nodes, mp, seq![root], nodes.len() as nat);
        let mut fuel: usize = self.nodes.len();
        loop
            invariant
                self.wf(),
                nodes == self.nodes@,
                root == self.root,
                !self.zoomed,
                full == spec_hit_scan(nodes, mp, stack@, fuel as nat),
                forall|t: int|
                    0 <= t < stack@.len() ==> (#[trigger] stack@[t] as int) < nodes.len()
                        && attached_in(nodes, root, stack@[t]),
            decreases fuel,
        {
            let ghost stack_before = stack@;
            match stack.pop() {
                None => {
                    proof {
                        assert(stack_before.len() == 0);
                    }
                    return None;
                },
                Some(cur) => {
                    proof {
                        assert(cur == stack_before.last());
                        assert(stack@ == stack_before.drop_last());
                    }
                    if self.nodes[cur].click(mp) {
                        proof {
                            assert(full == Some(cur));
                        }
                        return Some(cur);
                    }
                    if fuel == 0 {
                        proof {
                            assert(full is None);
                        }
                        return None;
                    }
                    fuel = fuel - 1;
                    proof {
                        assert(node_ok(nodes, root, cur as int));
                    }
                    let ghost base2 = stack@;
                    let ccount = self.nodes[cur].children.len();
                    let mut t: usize = ccount;
                    while t > 0
                        invariant
                            self.wf(),
                            nodes == self.nodes@,
                            root == self.root,
                            t <= ccount,
                            (cur as int) < nodes.len(),
                            ccount == nodes[cur as int].children@.len(),
                            attached_in(nodes, root, cur),
                            stack@ == base2 + nodes[cur as int].children@.subrange(
                                t as int,
                                ccount as int,
                            ).reverse(),
                            forall|u: int|
                                0 <= u < stack@.len() ==> (#[trigger] stack@[u] as int)
                                    < nodes.len() && attached_in(nodes, root, stack@[u]),
                        decreases t,
                    {
                        t = t - 1;
                        let c = self.nodes[cur].children[t];
                        proof {
                            assert(node_ok(nodes, root, cur as int));
                            assert(nodes[c as int].parent == Some(cur));
                            if c != root {
                                lemma_attached_step(nodes, root, c);
                            } else {
                                assert(reaches_root(nodes, root, c, 0nat));
                            }
                        }
                        stack.push(c);
                        proof {
                            assert(stack@ =~= base2 + nodes[cur as int].children@.subrange(
                                t as int,
                                ccount as int,
                            ).reverse());
                        }
                    }
                    proof {
                        assert(nodes[cur as int].children@.subrange(0, ccount as int) =~= nodes[
                            cur as int].children@);
                        assert(stack@ == base2 + nodes[cur as int].children@.reverse());
                        assert(full == spec_hit_scan(nodes, mp, stack@, fuel as nat));
                    }
                },
            }
        }
    }

    /// Walks the ancestors of the focus up to the first split on the
    /// requested axis and moves its ratio offset one step, guarded by the
    /// minimum extent. Reports whether anything moved; otherwise the tree
    /// is untouched.
    #[verifier::loop_isolation(false)]
    pub fn resize(&mut self, direction: Dir) -> (consumed: bool)
        requires
            old(self).wf(),
        ensures
            final(self).wf(),
            !consumed ==> final(self).nodes@ == old(self).nodes@ && *final(self) == (Mux {
                nodes: final(self).nodes,
                ..*old(self)
            }),
            forall|n: nat|
                reaches_root(old(self).nodes@, old(self).root, old(self).focus, n)
                    ==> {
                    let tgt = #[trigger] spec_resize_target(
                        old(self).nodes@,
                        direction,
                        old(self).focus,
                        n,
                    );
                    &&& consumed == (!old(self).zoomed && tgt is Some && spec_offset_move_ok(
                        old(self).nodes@[tgt.unwrap() as int],
                        direction,
                    ))
                    &&& (consumed ==> {
                        let s = tgt.unwrap();
                        let t = axis_extent(
                            old(self).nodes@[s as int].total_size.unwrap(),
                            direction.orientation(),
                        );
                        let off = old(self).nodes@[s as int].split_ratio_offset as int;
                        let noff = if direction.is_forward() {
                            off + 1
                        } else {
                            off - 1
                        };
                        &&& is_ancestor(old(self).nodes@, s, old(self).focus)
                        &&& final(self).nodes@ == old(self).nodes@.update(
                            s as int,
                            (Node {
                                split_ratio_offset: noff as i16,
                                ..old(self).nodes@[s as int]
                            }),
                        )
                        &&& *final(self) == (Mux {
                            nodes: final(self).nodes,
                            invalidated: true,
                            ..*old(self)
                        })
                    })
                },
    {
        let ghost m0 = *self;
        let ghost nodes = self.nodes@;
        let ghost root = self.root;
        let ghost n0 = choose|n: nat| reaches_root(nodes, root, m0.focus, n);
        let ghost full_tgt = spec_resize_target(nodes, direction, m0.focus, n0);
        proof {
            assert forall|n: nat| reaches_root(nodes, root, m0.focus, n) implies n == n0 by {
                crate::tree::lemma_reaches_unique(nodes, root, m0.focus, n, n0);
            }
        }
        if self.zoomed {
            return false;
        }
        let mut cur = self.focus;
        let ghost mut dist = n0;
        let ghost mut steps: nat = 0;
        loop
            invariant
                *self == m0,
                !m0.zoomed,
                (cur as int) < nodes.len(),
                attached_in(nodes, root, cur),
                reaches_root(nodes, root, cur, dist),
                reaches_node(nodes, m0.focus, cur, steps),
                full_tgt == spec_resize_target(nodes, direction, cur, dist),
            decreases dist,
        {
            let parent_link = self.nodes[cur].parent;
            match parent_link {
                None => {
                    proof {
                        assert(full_tgt is None);
                    }
                    return false;
                },
                Some(q) => {
                    proof {
                        assert(node_ok(nodes, root, cur as int));
                        assert(dist > 0) by {
                            if dist == 0 {
                                assert(cur == root);
                            }
                        }
                        lemma_attached_step(nodes, root, cur);
                        crate::tree::lemma_reaches_extend(nodes, m0.focus, cur, q, steps);
                    }
                    if self.nodes[q].orientation == direction.orientation() {
                        proof {
                            assert(full_tgt == Some(q));
                        }
                        let moved = self.nodes[q].move_offset(direction);
                        match moved {
                            Ok(()) => {
                                self.invalidated = true;
                                proof {
                                    assert(spec_offset_move_ok(m0.nodes@[q as int], direction));
                                    assert(is_ancestor(m0.nodes@, q, m0.focus));
                                    assert forall|i: int|
                                        0 <= i < self.nodes@.len() implies node_ok(
                                        self.nodes@,
                                        root,
                                        i,
                                    ) by {
                                        assert(node_ok(nodes, root, i));
                                        assert(self.nodes@[i].children == nodes[i].children);
                                        assert(self.nodes@[i].pane == nodes[i].pane);
                                        assert(self.nodes@[i].parent == nodes[i].parent);
                                    }
                                    assert forall|j: int|
                                        0 <= j < nodes.len() implies parent_in_range(
                                        nodes,
                                        j,
                                        nodes.len() as int,
                                    ) by {
                                        assert(node_ok(nodes, root, j));
                                    }
                                    lemma_attached_frame_all(nodes, self.nodes@, root);
                                    assert(self.wf());
                                }
                                return true;
                            },
                            Err(_) => {
                                proof {
                                    assert(!spec_offset_move_ok(m0.nodes@[q as int], direction));
                                    assert(self.nodes@ =~= m0.nodes@);
                                }
                                return false;
                            },
                        }
                    }
                    proof {
                        assert(full_tgt == spec_resize_target(
                            nodes,
                            direction,
                            q,
                            (dist - 1) as nat,
                        ));
                    }
                    cur = q;
                    proof {
                        steps = steps + 1;
                        dist = (dist - 1) as nat;
                    }
                },
            }
        }
    }

    /// The ascend phase: climbs from the focus, recording for every
    /// ancestor which side it was left from; on an ancestor whose axis
    /// matches the direction the climb stops as soon as the side points
    /// away from the direction, and that ancestor is the turn point.
    /// Fails where the root is passed without one.
    #[verifier::loop_isolation(false)]
    pub(crate) fn search_focus_path(&self, direction: Dir, nodeid: Id, fromid: Id) -> (r: Result<
        (Vec<SearchPath>, Id),
        (),
    >)
        requires
            self.wf(),
            self.is_attached(fromid),
            self.nodes@[fromid as int].parent == Some(nodeid),
        ensures
            forall|n: nat|
                reaches_root(self.nodes@, self.root, nodeid, n) ==> match r {
                    Ok(pt) => #[trigger] spec_search_step(
                        self.nodes@,
                        direction,
                        fromid,
                        nodeid,
                        Seq::empty(),
                        n,
                    ) == Some((pt.0@, pt.1)),
                    Err(()) => spec_search_step(
                        self.nodes@,
                        direction,
                        fromid,
                        nodeid,
                        Seq::empty(),
                        n,
                    ) is None,
                },
            match r {
                Ok((path, turn)) => (turn as int) < self.nodes@.len() && self.is_attached(turn),
                Err(()) => true,
            },
    {
        let ghost nodes = self.nodes@;
        let ghost root = self.root;
        let mut path: Vec<SearchPath> = Vec::new();
        let mut from = fromid;
        let mut cur: Id = nodeid;
        let mut climbing = true;
        proof {
            lemma_attached_step(nodes, root, fromid);
        }
        let ghost k0 = choose|k: nat| reaches_root(nodes, root, nodeid, k);
        let ghost full = spec_search_step(nodes, direction, fromid, nodeid, Seq::empty(), k0);
        proof {
            assert forall|n: nat| reaches_root(nodes, root, nodeid, n) implies n == k0 by {
                crate::tree::lemma_reaches_unique(nodes, root, nodeid, n, k0);
            }
        }
        let ghost mut dist = k0;
        while climbing
            invariant
                (from as int) < nodes.len(),
                attached_in(nodes, root, from),
                climbing ==> nodes[from as int].parent == Some(cur) && reaches_root(
                    nodes,
                    root,
                    cur,
                    dist,
                ) && full == spec_search_step(nodes, direction, from, cur, path@, dist),
                !climbing ==> full == (if nodes[from as int].orientation
                    == direction.spec_orientation() {
                    Some((path@, from))
                } else {
                    Option::<(Seq<SearchPath>, Id)>::None
                }),
            decreases dist, (if climbing { 1int } else { 0int }),
        {
            let c = cur;
            proof {
                assert(node_ok(nodes, root, from as int));
                assert((c as int) < nodes.len());
                assert(node_ok(nodes, root, c as int));
                assert(nodes[c as int].children@.contains(from));
                assert(nodes[c as int].children@.len() >= 1);
                lemma_attached_step(nodes, root, from);
                assert(attached_in(nodes, root, c));
            }
            let ghost path_before = path@;
            let c_orient = self.nodes[c].orientation;
            let from_first = self.nodes[c].children[0] == from;
            path.push(SearchPath::from_side(c_orient, from_first));
            let matches_axis = c_orient == direction.orientation();
            let keep_climbing = if matches_axis {
                from_first == !direction.is_forward()
            } else {
                true
            };
            proof {
                assert(full == spec_search_step(nodes, direction, from, c, path_before, dist));
            }
            if !keep_climbing {
                proof {
                    assert(full == Some((path@, c)));
                }
                from = c;
                climbing = false;
            } else {
                match self.nodes[c].parent {
                    Some(p) => {
                        proof {
                            assert(c != root);
                            assert(dist > 0) by {
                                if dist == 0 {
                                    assert(c == root);
                                }
                            }
                            assert(full == spec_search_step(
                                nodes,
                                direction,
                                c,
                                p,
                                path@,
                                (dist - 1) as nat,
                            ));
                        }
                        from = c;
                        cur = p;
                        proof {
                            dist = (dist - 1) as nat;
                        }
                    },
                    None => {
                        if matches_axis {
                            proof {
                                assert(full is None);
                            }
                            return Err(());
                        }
                        proof {
                            assert(full is None);
                        }
                        from = c;
                        climbing = false;
                    },
                }
            }
        }
        if self.nodes[from].orientation == direction.orientation() {
            Ok((path, from))
        } else {
            Err(())
        }
    }

    /// One descent step out of `cur_node`: on a split sharing the turn
    /// point's orientation the search crosses to the side opposite the
    /// recorded step, on any other split it keeps the recorded side.
    /// Yields nothing on an axis mismatch or a missing child.
    pub(crate) fn traverse_single_node(
        &self,
        action: SearchPath,
        turn_point: Id,
        cur_node: Id,
    ) -> (r: Option<Id>)
        requires
            self.wf(),
            (turn_point as int) < self.nodes@.len(),
            (cur_node as int) < self.nodes@.len(),
            self.is_attached(cur_node),
        ensures
            r == spec_single_step(self.nodes@, action, turn_point, cur_node),
            match r {
                Some(c) => (c as int) < self.nodes@.len() && self.is_attached(c),
                None => true,
            },
    {
        let ghost nodes = self.nodes@;
        let ghost root = self.root;
        proof {
            assert(node_ok(nodes, root, cur_node as int));
        }
        let cur_orient = self.nodes[cur_node].orientation;
        if !(action.orientation() == cur_orient) {
            return None;
        }
        let crossing = cur_orient == self.nodes[turn_point].orientation;
        let want_first = action.is_forward() == crossing;
        let cc = self.nodes[cur_node].children.len();
        if cc == 0 {
            return None;
        }
        let c = if want_first {
            self.nodes[cur_node].children[0]
        } else {
            self.nodes[cur_node].children[cc - 1]
        };
        proof {
            assert(nodes[c as int].parent == Some(cur_node));
            if c != root {
                lemma_attached_step(nodes, root, c);
            } else {
                assert(reaches_root(nodes, root, c, 0nat));
            }
        }
        Some(c)
    }

    /// The descend phase: replays the recorded path from the turn point
    /// down, consults the history for a remembered reverse move, and
    /// otherwise keeps descending towards the side the move came from
    /// until a pane is reached.
    #[verifier::loop_isolation(false)]
    pub(crate) fn traverse_search_path(
        &self,
        path: Vec<SearchPath>,
        turn_point: Id,
        direction: Dir,
        origin: Id,
    ) -> (r: Option<Id>)
        requires
            self.wf(),
            (turn_point as int) < self.nodes@.len(),
            self.is_attached(turn_point),
        ensures
            r == spec_traverse(*self, path@, turn_point, direction, origin),
            match r {
                Some(id) => {
                    &&& (id as int) < self.nodes@.len()
                    &&& self.is_attached(id)
                    &&& self.nodes@[id as int].pane is Some
                    &&& match hist_hit(*self, self.history@, origin, direction) {
                        Some(g) => id == g && self.nodes@[id as int].pane.unwrap().focusable,
                        None => true,
                    }
                },
                None => hist_hit(*self, self.history@, origin, direction) is None,
            },
    {
        let ghost nodes = self.nodes@;
        let ghost root = self.root;
        let ghost walk_target = spec_walk_path(nodes, path@, turn_point, turn_point);
        let mut path = path;
        let mut cur = turn_point;
        let mut walking = true;
        while walking
            invariant
                (cur as int) < nodes.len(),
                attached_in(nodes, root, cur),
                walking ==> walk_target == spec_walk_path(nodes, path@, turn_point, cur),
                !walking ==> walk_target == cur,
            decreases path@.len(), (if walking { 1int } else { 0int }),
        {
            let ghost path_before = path@;
            match path.pop() {
                None => {
                    proof {
                        assert(path_before.len() == 0);
                    }
                    walking = false;
                },
                Some(step) => {
                    proof {
                        assert(step == path_before.last());
                        assert(path@ == path_before.drop_last());
                    }
                    match self.traverse_single_node(step, turn_point, cur) {
                        Some(nxt) => {
                            cur = nxt;
                        },
                        None => {
                            proof {
                                assert(walk_target == cur);
                            }
                            walking = false;
                        },
                    }
                },
            }
        }
        // A remembered move out of this origin in the opposite direction
        // overrides the geometric descent.
        let mut i: usize = self.history.len();
        proof {
            assert(self.history@.take(i as int) =~= self.history@);
        }
        loop
            invariant
                i <= self.history@.len(),
                hist_hit(*self, self.history@, origin, direction) == hist_hit(
                    *self,
                    self.history@.take(i as int),
                    origin,
                    direction,
                ),
            decreases i,
        {
            if i == 0 {
                break;
            }
            i = i - 1;
            let e = self.history[i];
            proof {
                assert(self.history@.take(i as int + 1).last() == e);
                assert(self.history@.take(i as int + 1).drop_last() =~= self.history@.take(
                    i as int,
                ));
            }
            if e.to == origin && e.direction == direction.invert() {
                if e.from < self.nodes.len() {
                    if self.is_attached_exec(e.from) {
                        let goal_node = &self.nodes[e.from];
                        if let Some(pn) = goal_node.pane {
                            if pn.focusable {
                                proof {
                                    assert(hist_goal_valid(*self, e.from));
                                }
                                return Some(e.from);
                            }
                        }
                    }
                }
            }
            proof {
                assert(!(e.to == origin && e.direction == direction.invert() && hist_goal_valid(
                    *self,
                    e.from,
                )));
            }
        }
        proof {
            assert(self.history@.take(0int) =~= Seq::<HistoryEntry>::empty());
            assert(hist_hit(*self, self.history@, origin, direction) is None);
        }
        // Descend towards the side the move came from until a pane is
        // found.
        let ghost descend_full = spec_descend(nodes, direction, cur, nodes.len() as nat);
        let mut fuel: usize = self.nodes.len();
        loop
            invariant
                (cur as int) < nodes.len(),
                attached_in(nodes, root, cur),
                descend_full == spec_descend(nodes, direction, cur, fuel as nat),
            decreases fuel,
        {
            if self.nodes[cur].pane.is_some() {
                return Some(cur);
            }
            if fuel == 0 {
                return None;
            }
            fuel = fuel - 1;
            proof {
                assert(node_ok(nodes, root, cur as int));
            }
            let cc = self.nodes[cur].children.len();
            if cc == 0 {
                return None;
            }
            let o = self.nodes[cur].orientation;
            let want_first = if o == direction.orientation() {
                direction.is_forward()
            } else {
                true
            };
            let c = if want_first {
                self.nodes[cur].children[0]
            } else {
                self.nodes[cur].children[cc - 1]
            };
            proof {
                assert(descend_full == spec_descend(nodes, direction, c, fuel as nat));
                assert(nodes[c as int].parent == Some(cur));
                if c != root {
                    lemma_attached_step(nodes, root, c);
                } else {
                    assert(reaches_root(nodes, root, c, 0nat));
                }
            }
            cur = c;
        }
    }

    /// One move with acceptance retry: search and descend from `node`; a
    /// destination that rejects focus becomes the new starting point,
    /// while the origin stays fixed for the history. Sets the focus on
    /// success.
    #[verifier::loop_isolation(false)]
    pub(crate) fn move_focus_relative(&mut self, direction: Dir, node: Id, origin: Id) -> (consumed:
        bool)
        requires
            old(self).wf(),
            (node as int) < old(self).nodes@.len(),
            old(self).is_attached(node),
        ensures
            final(self).wf(),
            !consumed ==> *final(self) == *old(self),
            consumed ==> {
                &&& *final(self) == (Mux { focus: final(self).focus, ..*old(self) })
                &&& (final(self).focus as int) < old(self).nodes@.len()
                &&& old(self).is_attached(final(self).focus)
                &&& old(self).nodes@[final(self).focus as int].pane is Some
                &&& old(self).nodes@[final(self).focus as int].pane.unwrap().focusable
            },
            consumed ==> match hist_hit(
                *old(self),
                old(self).history@,
                origin,
                direction,
            ) {
                Some(g) => final(self).focus == g,
                None => true,
            },
            ({
                let outcome = spec_move_outcome(
                    *old(self),
                    direction,
                    node,
                    origin,
                    old(self).nodes@.len() as nat,
                );
                &&& consumed == (outcome is Some)
                &&& (consumed ==> final(self).focus == outcome.unwrap())
            }),
    {
        let ghost m0 = *self;
        let ghost full = spec_move_outcome(m0, direction, node, origin, m0.nodes@.len() as nat);
        let mut cur = node;
        let mut fuel: usize = self.nodes.len();
        loop
            invariant
                *self == m0,
                (cur as int) < m0.nodes@.len(),
                m0.is_attached(cur),
                full == spec_move_outcome(m0, direction, cur, origin, fuel as nat),
            decreases fuel,
        {
            if fuel == 0 {
                return false;
            }
            let ghost fuel_head = fuel as nat;
            fuel = fuel - 1;
            let parent_link = self.nodes[cur].parent;
            match parent_link {
                None => {
                    proof {
                        assert(spec_search_from(m0, direction, cur) is None);
                        assert(full is None);
                    }
                    return false;
                },
                Some(par) => {
                    proof {
                        lemma_attached_step(m0.nodes@, m0.root, cur);
                        assert(attached_in(m0.nodes@, m0.root, par));
                    }
                    let search_result = self.search_focus_path(direction, par, cur);
                    proof {
                        let n = choose|n: nat| reaches_root(m0.nodes@, m0.root, par, n);
                        assert(reaches_root(m0.nodes@, m0.root, par, n));
                        assert(match search_result {
                            Ok(pt) => spec_search_from(m0, direction, cur) == Some((
                                pt.0@,
                                pt.1,
                            )),
                            Err(()) => spec_search_from(m0, direction, cur) is None,
                        });
                    }
                    match search_result {
                        Err(()) => {
                            proof {
                                assert(full is None);
                            }
                            return false;
                        },
                        Ok((path, turn)) => {
                            let traverse_result = self.traverse_search_path(
                                path,
                                turn,
                                direction,
                                origin,
                            );
                            match traverse_result {
                                None => {
                                    proof {
                                        assert(full is None);
                                    }
                                    return false;
                                },
                                Some(f) => {
                                    let accepts = match &self.nodes[f].pane {
                                        Some(pn) => pn.focusable,
                                        None => false,
                                    };
                                    if accepts {
                                        proof {
                                            assert(full == Some(f));
                                        }
                                        self.focus = f;
                                        return true;
                                    }
                                    proof {
                                        assert(hist_hit(
                                            m0,
                                            m0.history@,
                                            origin,
                                            direction,
                                        ) is None);
                                        assert(full == spec_move_outcome(
                                            m0,
                                            direction,
                                            f,
                                            origin,
                                            (fuel_head - 1) as nat,
                                        ));
                                    }
                                    cur = f;
                                },
                            }
                        },
                    }
                },
            }
        }
    }

    /// Directional focus movement. On success the focus lands on an
    /// attached, focusable pane, the move is remembered in the bounded
    /// history, and a remembered reverse move out of this origin takes
    /// precedence over the geometric neighbour. Ignored while zoomed;
    /// when ignored, nothing changes.
    pub fn move_focus(&mut self, direction: Dir) -> (consumed: bool)
        requires
            old(self).wf(),
        ensures
            final(self).wf(),
            !consumed ==> *final(self) == *old(self),
            consumed ==> {
                &&& !old(self).zoomed
                &&& *final(self) == (Mux {
                    focus: final(self).focus,
                    history: final(self).history,
                    ..*old(self)
                })
                &&& (final(self).focus as int) < old(self).nodes@.len()
                &&& old(self).is_attached(final(self).focus)
                &&& old(self).nodes@[final(self).focus as int].pane is Some
                &&& old(self).nodes@[final(self).focus as int].pane.unwrap().focusable
                &&& final(self).history@ == push_evict(
                    old(self).history@,
                    HistoryEntry {
                        from: old(self).focus,
                        to: final(self).focus,
                        direction,
                    },
                    old(self).history_length as int,
                )
                &&& match hist_hit(
                    *old(self),
                    old(self).history@,
                    old(self).focus,
                    direction,
                ) {
                    Some(g) => final(self).focus == g,
                    None => true,
                }
            },
            ({
                let outcome = if old(self).zoomed {
                    Option::<Id>::None
                } else {
                    spec_move_outcome(
                        *old(self),
                        direction,
                        old(self).focus,
                        old(self).focus,
                        old(self).nodes@.len() as nat,
                    )
                };
                &&& consumed == (outcome is Some)
                &&& (consumed ==> final(self).focus == outcome.unwrap())
            }),
    {
        if self.zoomed {
            return false;
        }
        let prev = self.focus;
        let start = self.focus;
        let moved = self.move_focus_relative(direction, start, start);
        if moved {
            self.history.push(
                HistoryEntry { from: prev, to: self.focus, direction },
            );
            if self.history.len() > self.history_length {
                let _dropped = self.history.remove(0);
                proof {
                    assert(self.history@ =~= push_evict(
                        old(self).history@,
                        HistoryEntry { from: prev, to: self.focus, direction },
                        old(self).history_length as int,
                    ));
                }
            }
            true
        } else {
            false
        }
    }
}

} // verus!
