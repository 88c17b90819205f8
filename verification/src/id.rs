//! The tree mutators: space-splitting insertion, space-collapsing removal,
//! and slot-preserving exchange of two panes.

use vstd::prelude::*;

use crate::AddViewError;
use crate::Id;
use crate::Mux;
use crate::Node;
use crate::Orientation;
use crate::Pane;
use crate::path::side_first;
use crate::path::SearchPath;
use crate::tree::attached_in;
use crate::tree::lemma_attached_frame_all;
use crate::tree::lemma_attached_step;
use crate::tree::count_upto;
use crate::tree::lemma_count_congruent;
use crate::tree::lemma_reaches_unique;
use crate::tree::node_ok;
use crate::tree::parent_in_range;
use crate::tree::reaches_root;
use crate::tree::reaches_node;
use crate::tree::in_subtree;
use crate::tree::is_ancestor;
use crate::RemoveViewError;
use crate::SwitchError;

verus! {

/// Equality of everything a node holds besides its links and orientation:
/// its pane, its ratio offset, and its cached geometry.
pub open spec fn node_same_data(a: Node, b: Node) -> bool {
    &&& a.pane == b.pane
    &&& a.split_ratio_offset == b.split_ratio_offset
    &&& a.total_position == b.total_position
    &&& a.size == b.size
    &&& a.total_size == b.total_size
}

/// A freshly inserted leaf: childless, hosting `v`, hanging under `parent`,
/// with no geometry laid out yet.
pub open spec fn fresh_leaf(nd: Node, v: Pane, parent: Id) -> bool {
    &&& nd.parent == Some(parent)
    &&& nd.children@.len() == 0
    &&& nd.pane == Some(v)
    &&& nd.orientation == Orientation::Horizontal
    &&& nd.split_ratio_offset == 0i16
    &&& nd.total_position is None
    &&& nd.size is None
    &&& nd.total_size is None
}

/// The slot an insertion anchored at `anchor` considers first: the anchor's
/// parent where one exists, else the anchor itself.
pub open spec fn add_slot(m: Mux, anchor: Id) -> Id {
    match m.nodes@[anchor as int].parent {
        Some(p) => p,
        None => anchor,
    }
}

/// Whether the insertion can attach directly into that slot: the slot has
/// room and hosts no pane.
pub open spec fn add_is_direct(m: Mux, anchor: Id) -> bool {
    let slot = add_slot(m, anchor);
    m.nodes@[slot as int].children@.len() < 2 && m.nodes@[slot as int].pane is None
}

/// What every successful insertion guarantees, beyond the case-specific
/// shape of the new links: the new leaf is attached, takes the focus
/// exactly when its pane accepts focus, raises the leaf count by one, and
/// leaves every existing node's attachment as it was.
pub open spec fn add_common_spec(m0: Mux, m1: Mux, v: Pane, n: Id) -> bool {
    &&& n == m0.nodes@.len()
    &&& m1.root == m0.root
    &&& m1.focus == if v.focusable {
        n
    } else {
        m0.focus
    }
    &&& m1.invalidated
    &&& m1.zoomed == m0.zoomed
    &&& m1.history == m0.history
    &&& m1.history_length == m0.history_length
    &&& m1.is_attached(n)
    &&& m1.leaf_count() == m0.leaf_count() + 1
    &&& (forall|i: Id|
        (i as int) < m0.nodes@.len() ==> #[trigger] m1.is_attached(i) == m0.is_attached(i))
}

/// The direct case: the new leaf becomes a child of the slot, first or last
/// according to the requested side, and the slot takes the requested
/// orientation. Nothing else moves.
pub open spec fn add_direct_spec(
    m0: Mux,
    m1: Mux,
    anchor: Id,
    v: Pane,
    orientation: Orientation,
    first: bool,
    n: Id,
) -> bool {
    let slot = add_slot(m0, anchor) as int;
    let len0 = m0.nodes@.len() as int;
    &&& m1.nodes@.len() == len0 + 1
    &&& (forall|j: int| 0 <= j < len0 && j != slot ==> m1.nodes@[j] == m0.nodes@[j])
    &&& node_same_data(m1.nodes@[slot], m0.nodes@[slot])
    &&& m1.nodes@[slot].parent == m0.nodes@[slot].parent
    &&& m1.nodes@[slot].orientation == orientation
    &&& m1.nodes@[slot].children@ == if first {
        seq![n].add(m0.nodes@[slot].children@)
    } else {
        m0.nodes@[slot].children@.push(n)
    }
    &&& fresh_leaf(m1.nodes@[n as int], v, slot as Id)
    &&& m1.split_count() == m0.split_count()
}

/// The wrap case: the occupied anchor is detached, a fresh split takes its
/// place in the grandparent, and anchor and new leaf become the split's two
/// children, ordered by the requested side.
pub open spec fn add_wrap_spec(
    m0: Mux,
    m1: Mux,
    anchor: Id,
    v: Pane,
    orientation: Orientation,
    first: bool,
    n: Id,
) -> bool {
    let len0 = m0.nodes@.len() as int;
    let p = m0.nodes@[anchor as int].parent.unwrap() as int;
    let s = len0 + 1;
    let pos: int = if m0.nodes@[p].children@[0] == anchor {
        0
    } else {
        1
    };
    &&& m1.nodes@.len() == len0 + 2
    &&& (forall|j: int| 0 <= j < len0 && j != p && j != anchor ==> m1.nodes@[j] == m0.nodes@[j])
    &&& node_same_data(m1.nodes@[p], m0.nodes@[p])
    &&& m1.nodes@[p].parent == m0.nodes@[p].parent
    &&& m1.nodes@[p].orientation == m0.nodes@[p].orientation
    &&& m1.nodes@[p].children@ == m0.nodes@[p].children@.update(pos, s as Id)
    &&& node_same_data(m1.nodes@[anchor as int], m0.nodes@[anchor as int])
    &&& m1.nodes@[anchor as int].orientation == m0.nodes@[anchor as int].orientation
    &&& m1.nodes@[anchor as int].children == m0.nodes@[anchor as int].children
    &&& m1.nodes@[anchor as int].parent == Some(s as Id)
    &&& m1.nodes@[s].parent == Some(p as Id)
    &&& m1.nodes@[s].children@ == if first {
        seq![n, anchor]
    } else {
        seq![anchor, n]
    }
    &&& m1.nodes@[s].pane is None
    &&& m1.nodes@[s].orientation == orientation
    &&& m1.nodes@[s].split_ratio_offset == 0i16
    &&& fresh_leaf(m1.nodes@[n as int], v, s as Id)
    &&& m1.split_count() == m0.split_count() + 1
}

/// After wrapping `anchor` under the fresh split `s`, every old chain to
/// the root survives, with the one extra step through `s` where it passed
/// the anchor.
proof fn lemma_wrap_old_to_new(
    nodes0: Seq<Node>,
    nodes1: Seq<Node>,
    root: Id,
    anchor: Id,
    s: Id,
    x: Id,
    k: nat,
)
    requires
        nodes0.len() + 2 == nodes1.len(),
        (s as int) == nodes0.len() + 1,
        forall|j: int|
            0 <= j < nodes0.len() && j != anchor ==> nodes1[j].parent == nodes0[j].parent,
        nodes1[anchor as int].parent == Some(s),
        nodes1[s as int].parent == nodes0[anchor as int].parent,
        (root as int) < nodes0.len(),
        (x as int) < nodes0.len(),
        reaches_root(nodes0, root, x, k),
    ensures
        attached_in(nodes1, root, x),
    decreases k,
{
    if k == 0 {
        assert(reaches_root(nodes1, root, x, 0nat));
    } else {
        let p0 = nodes0[x as int].parent.unwrap();
        assert((p0 as int) < nodes0.len()) by {
            if k == 1 {
                assert(p0 == root);
            } else {
                assert(reaches_root(nodes0, root, p0, (k - 1) as nat));
            }
        }
        lemma_wrap_old_to_new(nodes0, nodes1, root, anchor, s, p0, (k - 1) as nat);
        let m = choose|m: nat| reaches_root(nodes1, root, p0, m);
        if x == anchor {
            assert(reaches_root(nodes1, root, s, (m + 1) as nat));
            assert(reaches_root(nodes1, root, x, (m + 2) as nat));
        } else {
            assert(reaches_root(nodes1, root, x, (m + 1) as nat));
        }
    }
}

/// The other direction: a chain in the wrapped arena projects back onto the
/// old one, skipping the fresh split.
proof fn lemma_wrap_new_to_old(
    nodes0: Seq<Node>,
    nodes1: Seq<Node>,
    root: Id,
    anchor: Id,
    s: Id,
    x: Id,
    k: nat,
)
    requires
        nodes0.len() + 2 == nodes1.len(),
        (s as int) == nodes0.len() + 1,
        forall|j: int|
            0 <= j < nodes0.len() && j != anchor ==> nodes1[j].parent == nodes0[j].parent,
        nodes1[anchor as int].parent == Some(s),
        nodes1[s as int].parent == nodes0[anchor as int].parent,
        nodes0[anchor as int].parent is Some,
        ((nodes0[anchor as int].parent.unwrap()) as int) < nodes0.len(),
        forall|j: int| 0 <= j < nodes0.len() ==> parent_in_range(nodes0, j, nodes0.len() as int),
        (root as int) < nodes0.len(),
        (x as int) < nodes0.len(),
        reaches_root(nodes1, root, x, k),
    ensures
        attached_in(nodes0, root, x),
    decreases k,
{
    if k == 0 {
        assert(reaches_root(nodes0, root, x, 0nat));
    } else {
        if x == anchor {
            assert(reaches_root(nodes1, root, s, (k - 1) as nat));
            assert(k >= 2) by {
                if k == 1 {
                    assert(s == root);
                }
            }
            let p0 = nodes0[anchor as int].parent.unwrap();
            assert(reaches_root(nodes1, root, p0, (k - 2) as nat));
            lemma_wrap_new_to_old(nodes0, nodes1, root, anchor, s, p0, (k - 2) as nat);
            let m = choose|m: nat| reaches_root(nodes0, root, p0, m);
            assert(reaches_root(nodes0, root, x, (m + 1) as nat));
        } else {
            let p1 = nodes1[x as int].parent.unwrap();
            assert(p1 == nodes0[x as int].parent.unwrap());
            assert(parent_in_range(nodes0, x as int, nodes0.len() as int));
            assert((p1 as int) < nodes0.len());
            lemma_wrap_new_to_old(nodes0, nodes1, root, anchor, s, p1, (k - 1) as nat);
            let m = choose|m: nat| reaches_root(nodes0, root, p1, m);
            assert(reaches_root(nodes0, root, x, (m + 1) as nat));
        }
    }
}


/// After a direct insertion the arena's links stay consistent.
proof fn lemma_add_direct_links(
    nodes0: Seq<Node>,
    nodes1: Seq<Node>,
    root: Id,
    slot: Id,
    n: Id,
    first: bool,
)
    requires
        nodes0.len() <= usize::MAX,
        crate::tree::links_ok(nodes0, root),
        slot == root,
        nodes0[slot as int].children@.len() < 2,
        nodes0[slot as int].pane is None,
        nodes1.len() == nodes0.len() + 1,
        (n as int) == nodes0.len(),
        forall|j: int| 0 <= j < nodes0.len() && j != slot ==> nodes1[j] == nodes0[j],
        nodes1[slot as int].parent == nodes0[slot as int].parent,
        nodes1[slot as int].pane == nodes0[slot as int].pane,
        nodes1[slot as int].children@ == if first {
            seq![n].add(nodes0[slot as int].children@)
        } else {
            nodes0[slot as int].children@.push(n)
        },
        nodes1[n as int].parent == Some(slot),
        nodes1[n as int].children@.len() == 0,
        nodes1[n as int].pane is Some,
    ensures
        crate::tree::links_ok(nodes1, root),
{
    let len0 = nodes0.len() as int;
    assert forall|t: int|
        0 <= t < nodes0[slot as int].children@.len() implies nodes1[slot as int].children@.contains(
        nodes0[slot as int].children@[t],
    ) by {
        if first {
            assert(nodes1[slot as int].children@[t + 1] == nodes0[slot as int].children@[t]);
        } else {
            assert(nodes1[slot as int].children@[t] == nodes0[slot as int].children@[t]);
        }
    }
    assert(nodes1[slot as int].children@.contains(n)) by {
        if first {
            assert(nodes1[slot as int].children@[0] == n);
        } else {
            let l = nodes0[slot as int].children@.len() as int;
            assert(nodes1[slot as int].children@[l] == n);
        }
    }
    assert forall|i: int| 0 <= i < nodes1.len() implies node_ok(nodes1, root, i) by {
        assert(node_ok(nodes0, root, if i < len0 { i } else { slot as int }));
        if i < len0 && i != slot {
            assert(node_ok(nodes0, root, i));
            assert forall|t: int|
                0 <= t < nodes1[i].children@.len() implies (
                #[trigger] nodes1[i].children@[t] as int) < nodes1.len()
                && nodes1[nodes1[i].children@[t] as int].parent == Some(
                i as Id,
            ) by {
                let c = nodes0[i].children@[t];
                assert((c as int) < len0);
            }
            match nodes1[i].parent {
                Some(q) => {
                    assert(nodes0[i].parent == Some(q));
                },
                None => {},
            }
        } else if i == slot {
            assert(node_ok(nodes0, root, slot as int));
            let ch1 = nodes1[slot as int].children@;
            let ch0 = nodes0[slot as int].children@;
            assert forall|t: int|
                0 <= t < ch1.len() implies ((#[trigger] ch1[t] as int) < nodes1.len()
                && nodes1[ch1[t] as int].parent == Some(slot)) by {
                if first {
                    if t == 0 {
                        assert(ch1[t] == n);
                    } else {
                        assert(ch1[t] == ch0[t - 1]);
                        assert((ch0[t - 1] as int) < len0);
                    }
                } else {
                    if t == ch0.len() {
                        assert(ch1[t] == n);
                    } else {
                        assert(ch1[t] == ch0[t]);
                        assert((ch0[t] as int) < len0);
                    }
                }
            }
            assert forall|t1: int, t2: int|
                0 <= t1 < t2 < ch1.len() implies ch1[t1] != ch1[t2] by {
                if first {
                    assert(ch1[0] == n);
                    if t1 > 0 {
                        assert((ch0[t1 - 1] as int) < len0);
                    }
                    if t2 > 0 {
                        assert((ch0[t2 - 1] as int) < len0);
                    }
                } else {
                    if t1 < ch0.len() {
                        assert((ch0[t1] as int) < len0);
                    }
                    if t2 < ch0.len() {
                        assert((ch0[t2] as int) < len0);
                    }
                }
            }
        } else {
            assert(i == n as int);
        }
    }
}

/// After wrapping the occupied anchor together with the fresh leaf under a
/// fresh split, the arena's links stay consistent.
proof fn lemma_add_wrap_links(
    nodes0: Seq<Node>,
    nodes1: Seq<Node>,
    root: Id,
    id: Id,
    p: Id,
    n: Id,
    s: Id,
    pos: usize,
    first: bool,
)
    requires
        nodes0.len() <= usize::MAX,
        crate::tree::links_ok(nodes0, root),
        attached_in(nodes0, root, id),
        nodes0[id as int].parent == Some(p),
        (p as int) < nodes0.len(),
        nodes0[p as int].children@.len() == 2,
        pos < 2,
        nodes0[p as int].children@[pos as int] == id,
        id != root,
        p != id,
        nodes1.len() == nodes0.len() + 2,
        (n as int) == nodes0.len(),
        (s as int) == nodes0.len() + 1,
        forall|j: int| 0 <= j < nodes0.len() && j != p && j != id ==> nodes1[j] == nodes0[j],
        nodes1[p as int].parent == nodes0[p as int].parent,
        nodes1[p as int].pane == nodes0[p as int].pane,
        nodes1[p as int].children@ == nodes0[p as int].children@.update(pos as int, s),
        nodes1[id as int].parent == Some(s),
        nodes1[id as int].children == nodes0[id as int].children,
        nodes1[id as int].pane == nodes0[id as int].pane,
        nodes1[s as int].parent == Some(p),
        nodes1[s as int].children@ == if first {
            seq![n, id]
        } else {
            seq![id, n]
        },
        nodes1[s as int].pane is None,
        nodes1[n as int].parent == Some(s),
        nodes1[n as int].children@.len() == 0,
        nodes1[n as int].pane is Some,
    ensures
        crate::tree::links_ok(nodes1, root),
{
    let len0 = nodes0.len() as int;
    crate::tree::lemma_attached_step(nodes0, root, id);
    assert(attached_in(nodes0, root, p));
    assert(node_ok(nodes0, root, p as int));
    assert forall|i: int| 0 <= i < nodes1.len() implies node_ok(
        nodes1,
        root,
        i,
    ) by {
        if i < len0 {
            assert(node_ok(nodes0, root, i));
        }
        if i < len0 && i != p && i != id {
            assert forall|t: int|
                0 <= t < nodes1[i].children@.len() implies (
                #[trigger] nodes1[i].children@[t] as int) < nodes1.len()
                && nodes1[nodes1[i].children@[t] as int].parent == Some(
                i as Id,
            ) by {
                let c = nodes0[i].children@[t];
                assert((c as int) < len0);
                assert(c != id) by {
                    if c == id {
                        assert(nodes0[id as int].parent == Some(i as Id));
                    }
                }
            }
            match nodes1[i].parent {
                Some(q) => {
                    assert(nodes0[i].parent == Some(q));
                    if q == p {
                        assert(nodes0[p as int].children@.contains(i as Id));
                        let t = choose|t: int|
                            0 <= t < nodes0[p as int].children@.len()
                                && nodes0[p as int].children@[t] == i as Id;
                        assert(t != pos as int);
                        assert(nodes1[p as int].children@[t] == i as Id);
                    }
                },
                None => {},
            }
        } else if i == p {
            assert forall|t: int|
                0 <= t < nodes1[p as int].children@.len() implies (
                #[trigger] nodes1[p as int].children@[t] as int) < nodes1.len()
                && nodes1[nodes1[p as int].children@[t] as int].parent == Some(
                p as Id,
            ) by {
                if t == pos as int {
                    assert(nodes1[p as int].children@[t] == s);
                } else {
                    let c = nodes0[p as int].children@[t];
                    assert(c != id);
                    assert(c != s && (c as int) != len0);
                }
            }
            match nodes1[p as int].parent {
                Some(q) => {
                    assert(nodes0[p as int].parent == Some(q));
                    assert(q != p) by {
                        if q == p {
                            crate::tree::lemma_one_step(nodes0, p, p);
                            crate::tree::lemma_no_self_loop(
                                nodes0,
                                root,
                                p,
                                1nat,
                            );
                        }
                    }
                    {
                        assert(nodes0[q as int].children@.contains(p as Id));
                        assert(nodes1[q as int].children@ == nodes0[
                            q as int].children@);
                    }
                },
                None => {},
            }
        } else if i == id as int {
            assert forall|t: int|
                0 <= t < nodes1[i].children@.len() implies (
                #[trigger] nodes1[i].children@[t] as int) < nodes1.len()
                && nodes1[nodes1[i].children@[t] as int].parent == Some(
                i as Id,
            ) by {
                let c = nodes0[i].children@[t];
                assert((c as int) < len0);
                assert(c != id);
                assert(c != p) by {
                    if c == p {
                        assert(nodes0[p as int].parent == Some(id));
                        crate::tree::lemma_one_step(nodes0, id, p);
                        crate::tree::lemma_one_step(nodes0, p, id);
                        crate::tree::lemma_chain_compose(
                            nodes0,
                            id,
                            p,
                            id,
                            1nat,
                            1nat,
                        );
                        crate::tree::lemma_no_self_loop(
                            nodes0,
                            root,
                            id,
                            2nat,
                        );
                    }
                };
                assert(nodes1[c as int].parent == nodes0[c as int].parent);
            }
            assert(nodes1[s as int].children@.contains(id)) by {
                if first {
                    assert(nodes1[s as int].children@[1] == id);
                } else {
                    assert(nodes1[s as int].children@[0] == id);
                }
            }
        } else if i == n as int {
            assert(nodes1[s as int].children@.contains(n)) by {
                if first {
                    assert(nodes1[s as int].children@[0] == n);
                } else {
                    assert(nodes1[s as int].children@[1] == n);
                }
            }
        } else {
            assert(i == s as int);
            assert(nodes1[p as int].children@[pos as int] == s);
        }
    }
}

/// After a removal the arena's links stay consistent: the sibling sits in
/// the collapsed parent's old slot, or is the new root.
proof fn lemma_remove_links(
    nodes0: Seq<Node>,
    nodes1: Seq<Node>,
    root0: Id,
    root1: Id,
    id: Id,
    p: Id,
    sib: Id,
    gp: Option<Id>,
)
    requires
        nodes0.len() <= usize::MAX,
        crate::tree::links_ok(nodes0, root0),
        attached_in(nodes0, root0, id),
        nodes0[id as int].parent == Some(p),
        (p as int) < nodes0.len(),
        nodes0[p as int].children@.len() == 2,
        nodes0[p as int].children@.contains(id),
        nodes0[p as int].children@.contains(sib),
        sib != id,
        id != p,
        sib != p,
        (sib as int) < nodes0.len(),
        nodes0[sib as int].parent == Some(p),
        gp == nodes0[p as int].parent,
        nodes1.len() == nodes0.len(),
        nodes1[id as int].parent is None,
        nodes1[id as int].children == nodes0[id as int].children,
        nodes1[id as int].pane == nodes0[id as int].pane,
        nodes1[p as int].parent is None,
        nodes1[p as int].children@.len() == 0,
        nodes1[p as int].pane == nodes0[p as int].pane,
        nodes1[sib as int].parent == gp,
        nodes1[sib as int].children == nodes0[sib as int].children,
        nodes1[sib as int].pane == nodes0[sib as int].pane,
        match gp {
            Some(g) => {
                &&& root1 == root0
                &&& (g as int) < nodes0.len()
                &&& g != id
                &&& g != p
                &&& g != sib
                &&& nodes1[g as int].parent == nodes0[g as int].parent
                &&& nodes1[g as int].pane == nodes0[g as int].pane
                &&& nodes1[g as int].children@ == nodes0[g as int].children@.update(
                    (if nodes0[g as int].children@[0] == p {
                        0int
                    } else {
                        1int
                    }),
                    sib,
                )
                &&& (forall|j: int|
                    0 <= j < nodes0.len() && j != (id as int) && j != (p as int) && j != (
                    sib as int) && j != (g as int) ==> nodes1[j] == nodes0[j])
            },
            None => {
                &&& root1 == sib
                &&& (forall|j: int|
                    0 <= j < nodes0.len() && j != (id as int) && j != (p as int) && j != (
                    sib as int) ==> nodes1[j] == nodes0[j])
            },
        },
    ensures
        crate::tree::links_ok(nodes1, root1),
{
    let len0 = nodes0.len() as int;
    assert(id != root0);
    crate::tree::lemma_attached_step(nodes0, root0, id);
    assert(attached_in(nodes0, root0, p));
    assert(node_ok(nodes0, root0, p as int));
    assert(node_ok(nodes0, root0, id as int));
    assert(node_ok(nodes0, root0, sib as int));
    crate::tree::lemma_attached_step(nodes0, root0, sib);
    assert(attached_in(nodes0, root0, sib));
    if gp is Some {
        let g = gp.unwrap();
        assert(node_ok(nodes0, root0, g as int));
        assert(nodes0[g as int].children@.contains(p as Id));
        let gpos: int = if nodes0[g as int].children@[0] == p {
            0
        } else {
            1
        };
        assert(nodes0[g as int].children@[gpos] == p) by {
            if nodes0[g as int].children@[0] != p {
                let t = choose|t: int|
                    0 <= t < nodes0[g as int].children@.len() && nodes0[g as int].children@[t]
                        == p;
                assert(t == 1);
            }
        }
        assert(gpos < nodes0[g as int].children@.len());
    }
    assert forall|i: int| 0 <= i < nodes1.len() implies node_ok(
        nodes1,
        root1,
        i,
    ) by {
        assert(node_ok(nodes0, root0, i));
        if i == id as int {
            assert forall|t: int|
                0 <= t < nodes1[i].children@.len() implies ((
            #[trigger] nodes1[i].children@[t] as int) < nodes1.len()
                && nodes1[nodes1[i].children@[t] as int].parent == Some(
                i as Id,
            )) by {
                let c = nodes0[i].children@[t];
                assert(c != id && c != p && c != sib);
            }
        } else if i == p as int {
        } else if i == sib as int {
            assert forall|t: int|
                0 <= t < nodes1[i].children@.len() implies ((
            #[trigger] nodes1[i].children@[t] as int) < nodes1.len()
                && nodes1[nodes1[i].children@[t] as int].parent == Some(
                i as Id,
            )) by {
                let c = nodes0[i].children@[t];
                assert(c != id && c != p && c != sib);
            }
            match nodes1[sib as int].parent {
                Some(g2) => {
                    assert(gp == Some(g2));
                    let gpos2: int = if nodes0[g2 as int].children@[0] == p {
                        0
                    } else {
                        1
                    };
                    assert(nodes1[g2 as int].children@[gpos2] == sib);
                },
                None => {},
            }
        } else if gp is Some && i == gp.unwrap() as int {
            let g = gp.unwrap();
            assert forall|t: int|
                0 <= t < nodes1[i].children@.len() implies ((
            #[trigger] nodes1[i].children@[t] as int) < nodes1.len()
                && nodes1[nodes1[i].children@[t] as int].parent == Some(
                i as Id,
            )) by {
                let gpos2: int = if nodes0[g as int].children@[0] == p {
                    0
                } else {
                    1
                };
                if t == gpos2 {
                    assert(nodes1[i].children@[t] == sib);
                } else {
                    let oc = nodes0[i].children@[t];
                    assert(oc != p);
                    assert(oc != id && oc != sib);
                }
            }
            assert forall|t1: int, t2: int|
                0 <= t1 < t2 < nodes1[i].children@.len() implies nodes1[
            i].children@[t1] != nodes1[i].children@[t2] by {
                let gpos2: int = if nodes0[g as int].children@[0] == p {
                    0
                } else {
                    1
                };
                if t1 != gpos2 && t2 != gpos2 {
                    assert(nodes1[i].children@[t1] == nodes0[i].children@[t1]);
                } else {
                    let to = if t1 == gpos2 {
                        t2
                    } else {
                        t1
                    };
                    let oc = nodes0[i].children@[to];
                    assert(oc != p);
                    assert(oc != sib);
                }
            }
            match nodes1[i].parent {
                Some(h) => {
                    assert(nodes0[i].parent == Some(h));
                    assert(h != id) by {
                        if h == id {
                            crate::tree::lemma_one_step(nodes0, id, p);
                            crate::tree::lemma_one_step(nodes0, p, g);
                            crate::tree::lemma_one_step(nodes0, g, id);
                            crate::tree::lemma_chain_compose(
                                nodes0,
                                id,
                                p,
                                g,
                                1nat,
                                1nat,
                            );
                            crate::tree::lemma_chain_compose(
                                nodes0,
                                id,
                                g,
                                id,
                                2nat,
                                1nat,
                            );
                            crate::tree::lemma_no_self_loop(
                                nodes0,
                                root0,
                                id,
                                3nat,
                            );
                        }
                    }
                    assert(h != p) by {
                        if h == p {
                            crate::tree::lemma_one_step(nodes0, p, g);
                            crate::tree::lemma_one_step(nodes0, g, p);
                            crate::tree::lemma_chain_compose(
                                nodes0,
                                p,
                                g,
                                p,
                                1nat,
                                1nat,
                            );
                            lemma_attached_step(nodes0, root0, id);
                            lemma_attached_step(nodes0, root0, p);
                            crate::tree::lemma_no_self_loop(
                                nodes0,
                                root0,
                                p,
                                2nat,
                            );
                        }
                    }
                    assert(h != g) by {
                        if h == g {
                            crate::tree::lemma_one_step(nodes0, g, g);
                            crate::tree::lemma_attached_step(nodes0, root0, p);
                            crate::tree::lemma_no_self_loop(
                                nodes0,
                                root0,
                                g,
                                1nat,
                            );
                        }
                    }
                    assert(nodes1[h as int].children@ == nodes0[
                        h as int].children@);
                    assert(nodes1[h as int].children@.contains(i as Id));
                },
                None => {},
            }
        } else {
            assert forall|t: int|
                0 <= t < nodes1[i].children@.len() implies ((
            #[trigger] nodes1[i].children@[t] as int) < nodes1.len()
                && nodes1[nodes1[i].children@[t] as int].parent == Some(
                i as Id,
            )) by {
                let c = nodes0[i].children@[t];
                assert(c != id) by {
                    if c == id {
                        assert(nodes0[id as int].parent == Some(i as Id));
                    }
                }
                assert(c != p) by {
                    if c == p {
                        assert(nodes0[p as int].parent == Some(i as Id));
                    }
                }
                assert(c != sib) by {
                    if c == sib {
                        assert(nodes0[sib as int].parent == Some(i as Id));
                    }
                }
            }
            match nodes1[i].parent {
                Some(q) => {
                    assert(nodes0[i].parent == Some(q));
                    assert(q != p) by {
                        if q == p {
                            assert(nodes0[p as int].children@.contains(i as Id));
                            let ti = choose|t: int|
                                0 <= t < 2 && nodes0[p as int].children@[t] == id;
                            let ts = choose|t: int|
                                0 <= t < 2 && nodes0[p as int].children@[t]
                                    == sib;
                            let tx = choose|t: int|
                                0 <= t < 2 && nodes0[p as int].children@[t]
                                    == i as Id;
                            assert(ti != ts);
                            assert(tx == ti || tx == ts);
                        }
                    }
                    if gp is Some && q == gp.unwrap() {
                        let g = gp.unwrap();
                        let gpos2: int = if nodes0[g as int].children@[0] == p {
                            0
                        } else {
                            1
                        };
                        assert(nodes0[g as int].children@.contains(i as Id));
                        let t = choose|t: int|
                            0 <= t < nodes0[g as int].children@.len() && nodes0[
                            g as int].children@[t] == i as Id;
                        assert(t != gpos2);
                        assert(nodes1[g as int].children@[t] == i as Id);
                    } else {
                        assert(nodes1[q as int].children@ == nodes0[
                        q as int].children@);
                    }
                },
                None => {},
            }
        }
    }
}

/// After two attached, unrelated views trade places, the arena's links
/// stay consistent, and every children sequence is the swapped image of
/// its old self.
proof fn lemma_switch_links(
    nodes0: Seq<Node>,
    nodes1: Seq<Node>,
    root: Id,
    fst: Id,
    snd: Id,
    p1: Id,
    p2: Id,
    pos1: usize,
    pos2: usize,
)
    requires
        nodes0.len() <= usize::MAX,
        crate::tree::links_ok(nodes0, root),
        attached_in(nodes0, root, fst),
        attached_in(nodes0, root, snd),
        fst != snd,
        nodes0[fst as int].parent == Some(p1),
        nodes0[snd as int].parent == Some(p2),
        (p1 as int) < nodes0.len(),
        (p2 as int) < nodes0.len(),
        fst != p1,
        snd != p2,
        fst != p2,
        snd != p1,
        (pos1 as int) < nodes0[p1 as int].children@.len(),
        nodes0[p1 as int].children@[pos1 as int] == fst,
        (pos2 as int) < nodes0[p2 as int].children@.len(),
        nodes0[p2 as int].children@[pos2 as int] == snd,
        nodes1.len() == nodes0.len(),
        nodes1[fst as int].parent == Some(p2),
        nodes1[fst as int].children == nodes0[fst as int].children,
        nodes1[fst as int].pane == nodes0[fst as int].pane,
        nodes1[snd as int].parent == Some(p1),
        nodes1[snd as int].children == nodes0[snd as int].children,
        nodes1[snd as int].pane == nodes0[snd as int].pane,
        nodes1[p1 as int].parent == nodes0[p1 as int].parent,
        nodes1[p1 as int].pane == nodes0[p1 as int].pane,
        nodes1[p2 as int].parent == nodes0[p2 as int].parent,
        nodes1[p2 as int].pane == nodes0[p2 as int].pane,
        if p1 == p2 {
            nodes1[p1 as int].children@ == nodes0[p1 as int].children@.update(
                pos1 as int,
                snd,
            ).update(pos2 as int, fst)
        } else {
            nodes1[p1 as int].children@ == nodes0[p1 as int].children@.update(pos1 as int, snd)
                && nodes1[p2 as int].children@ == nodes0[p2 as int].children@.update(
                pos2 as int,
                fst,
            )
        },
        forall|j: int|
            0 <= j < nodes0.len() && j != (fst as int) && j != (snd as int) && j != (p1 as int)
                && j != (p2 as int) ==> nodes1[j] == nodes0[j],
    ensures
        crate::tree::links_ok(nodes1, root),
        forall|j: int|
            0 <= j < nodes0.len() ==> nodes1[j].children@ == swapped_children(
                nodes0[j].children@,
                fst,
                snd,
            ),
{
    let len0 = nodes0.len() as int;
    assert forall|j: int| 0 <= j < len0 implies nodes1[j].children@ == swapped_children(
        nodes0[j].children@,
        fst,
        snd,
    ) by {
        assert(node_ok(nodes0, root, j));
        assert forall|t: int|
            0 <= t < nodes0[j].children@.len() implies nodes1[j].children@[t]
            == swapped_children(nodes0[j].children@, fst, snd)[t] by {
            let c = nodes0[j].children@[t];
            if c == fst {
                assert(j == p1 as int && t == pos1 as int);
                assert(nodes1[j].children@[t] == snd);
            } else if c == snd {
                assert(j == p2 as int && t == pos2 as int);
                assert(nodes1[j].children@[t] == fst);
            } else {
                if j == p1 as int && t == pos1 as int {
                    assert(c == fst);
                }
                if j == p2 as int && t == pos2 as int {
                    assert(c == snd);
                }
                assert(nodes1[j].children@[t] == c);
            }
        }
        assert(nodes1[j].children@ =~= swapped_children(nodes0[j].children@, fst, snd));
    }
    assert forall|i: int| 0 <= i < nodes1.len() implies node_ok(nodes1, root, i) by {
        assert(node_ok(nodes0, root, i));
        assert(nodes1[i].children@ == swapped_children(nodes0[i].children@, fst, snd));
        assert forall|t: int|
            0 <= t < nodes1[i].children@.len() implies ((#[trigger] nodes1[
        i].children@[t] as int) < nodes1.len() && nodes1[nodes1[i].children@[t] as int].parent
            == Some(i as Id)) by {
            let c = nodes0[i].children@[t];
            assert(nodes1[i].children@[t] == swapped_children(
                nodes0[i].children@,
                fst,
                snd,
            )[t]);
            if c == fst {
                assert(i == p1 as int);
                assert(nodes1[i].children@[t] == snd);
                assert(nodes1[snd as int].parent == Some(p1));
            } else if c == snd {
                assert(i == p2 as int);
                assert(nodes1[i].children@[t] == fst);
                assert(nodes1[fst as int].parent == Some(p2));
            } else {
                assert(nodes1[i].children@[t] == c);
                assert(nodes1[c as int].parent == nodes0[c as int].parent);
            }
        }
        assert forall|t1: int, t2: int|
            0 <= t1 < t2 < nodes1[i].children@.len() implies nodes1[i].children@[t1]
            != nodes1[i].children@[t2] by {
            let c1 = nodes0[i].children@[t1];
            let c2 = nodes0[i].children@[t2];
            assert(c1 != c2);
            assert(nodes1[i].children@[t1] == swapped_children(
                nodes0[i].children@,
                fst,
                snd,
            )[t1]);
            assert(nodes1[i].children@[t2] == swapped_children(
                nodes0[i].children@,
                fst,
                snd,
            )[t2]);
        }
        match nodes1[i].parent {
            Some(q) => {
                if i == fst as int {
                    assert(q == p2);
                    assert(nodes1[p2 as int].children@[pos2 as int] == fst);
                } else if i == snd as int {
                    assert(q == p1);
                    assert(nodes1[p1 as int].children@[pos1 as int] == snd);
                } else {
                    assert(nodes0[i].parent == Some(q));
                    assert(nodes0[q as int].children@.contains(i as Id));
                    let t = choose|t: int|
                        0 <= t < nodes0[q as int].children@.len() && nodes0[
                        q as int].children@[t] == i as Id;
                    assert(nodes1[q as int].children@ == swapped_children(
                        nodes0[q as int].children@,
                        fst,
                        snd,
                    ));
                    assert(i as Id != fst && i as Id != snd);
                    assert(nodes1[q as int].children@[t] == i as Id);
                }
            },
            None => {},
        }
    }
}

impl Mux {
    /// Adds `v` below the anchor `id`: the two views share the anchor's
    /// former space, the new one beneath.
    pub fn add_below(&mut self, v: Pane, id: Id) -> (r: Result<Id, AddViewError>)
        requires
            old(self).wf(),
        ensures
            final(self).wf(),
            add_result_spec(
                *old(self),
                *final(self),
                v,
                id,
                Orientation::Vertical,
                false,
                r,
            ),
    {
        self.add_node_id(v, id, Orientation::Vertical, SearchPath::Down)
    }

    /// Adds `v` above the anchor `id`.
    pub fn add_above(&mut self, v: Pane, id: Id) -> (r: Result<Id, AddViewError>)
        requires
            old(self).wf(),
        ensures
            final(self).wf(),
            add_result_spec(*old(self), *final(self), v, id, Orientation::Vertical, true, r),
    {
        self.add_node_id(v, id, Orientation::Vertical, SearchPath::Up)
    }

    /// Adds `v` left of the anchor `id`.
    pub fn add_left_of(&mut self, v: Pane, id: Id) -> (r: Result<Id, AddViewError>)
        requires
            old(self).wf(),
        ensures
            final(self).wf(),
            add_result_spec(
                *old(self),
                *final(self),
                v,
                id,
                Orientation::Horizontal,
                true,
                r,
            ),
    {
        self.add_node_id(v, id, Orientation::Horizontal, SearchPath::Left)
    }

    /// Adds `v` right of the anchor `id`.
    pub fn add_right_of(&mut self, v: Pane, id: Id) -> (r: Result<Id, AddViewError>)
        requires
            old(self).wf(),
        ensures
            final(self).wf(),
            add_result_spec(
                *old(self),
                *final(self),
                v,
                id,
                Orientation::Horizontal,
                false,
                r,
            ),
    {
        self.add_node_id(v, id, Orientation::Horizontal, SearchPath::Right)
    }

    /// The shared insertion: resolves the slot, attaches directly where the
    /// slot is an empty split with room, and otherwise wraps the occupied
    /// anchor together with the new leaf under a fresh split.
    #[verifier::rlimit(100)]
    pub(crate) fn add_node_id(
        &mut self,
        v: Pane,
        id: Id,
        orientation: Orientation,
        direction: SearchPath,
    ) -> (r: Result<Id, AddViewError>)
        requires
            old(self).wf(),
        ensures
            final(self).wf(),
            add_result_spec(
                *old(self),
                *final(self),
                v,
                id,
                orientation,
                side_first(direction),
                r,
            ),
    {
        let ghost m0 = *self;
        if !self.is_attached_exec(id) {
            return Err(AddViewError::GenericError {});
        }
        proof {
            assert forall|j: int|
                0 <= j < self.nodes@.len() implies parent_in_range(
                self.nodes@,
                j,
                self.nodes@.len() as int,
            ) by {
                assert(node_ok(self.nodes@, self.root, j));
            }
        }
        let slot: Id = match self.nodes[id].parent {
            Some(p) => p,
            None => id,
        };
        proof {
            match self.nodes@[id as int].parent {
                Some(q) => {
                    assert(id != self.root);
                    lemma_attached_step(self.nodes@, self.root, id);
                },
                None => {
                    let k = choose|k: nat| reaches_root(self.nodes@, self.root, id, k);
                    if k != 0 {
                        assert(self.nodes@[id as int].parent is Some);
                    }
                    assert(id == self.root);
                },
            }
        }
        let first = matches!(direction, SearchPath::Up | SearchPath::Left);
        if self.nodes[slot].children.len() < 2 && self.nodes[slot].pane.is_none() {
            // Direct case. A non-root parent never has exactly one child,
            // and a parent with room must hold the anchor alone, so the
            // slot here is always the root placeholder or the anchor
            // itself, which is the parentless root.
            proof {
                assert(node_ok(m0.nodes@, m0.root, slot as int));
                assert(node_ok(m0.nodes@, m0.root, id as int));
                if slot != m0.root {
                    assert(m0.nodes@[id as int].parent == Some(slot));
                    assert(m0.nodes@[slot as int].children@.contains(id));
                    let t = choose|t: int|
                        0 <= t < m0.nodes@[slot as int].children@.len()
                            && m0.nodes@[slot as int].children@[t] == id;
                    assert(m0.nodes@[slot as int].children@.len() >= 1);
                    assert(m0.nodes@[slot as int].children@.len() == 1);
                    assert(false);
                }
                assert(slot == m0.root);
            }
            let n: Id = self.nodes.len();
            let mut leaf = Node::new(v, Orientation::Horizontal);
            leaf.parent = Some(slot);
            self.nodes.push(leaf);
            if first {
                self.nodes[slot].children.insert(0, n);
            } else {
                self.nodes[slot].children.push(n);
            }
            self.nodes[slot].orientation = orientation;
            if v.focusable {
                self.focus = n;
            }
            self.invalidated = true;
            proof {
                let nodes0 = m0.nodes@;
                let nodes1 = self.nodes@;
                let root = m0.root;
                let len0 = nodes0.len() as int;
                if first {
                    assert(nodes1[slot as int].children@ =~= seq![n].add(
                        nodes0[slot as int].children@,
                    ));
                }
                assert forall|j: int|
                    0 <= j < len0 && j != slot implies nodes1[j] == nodes0[j] by {}
                lemma_add_direct_links(nodes0, nodes1, root, slot, n, first);
                lemma_attached_frame_all(nodes0, nodes1, root);
                lemma_attached_step(nodes1, root, n);
                assert(attached_in(nodes1, root, slot)) by {
                    if slot == root {
                        assert(reaches_root(nodes1, root, slot, 0nat));
                    }
                }
                assert(self.wf());
                lemma_count_congruent(nodes0, root, nodes1, root, true, len0);
                lemma_count_congruent(nodes0, root, nodes1, root, false, len0);
            }
            Ok(n)
        } else {
            match self.nodes[id].parent {
                None => {
                    proof {
                        assert(*self == m0);
                    }
                    Err(AddViewError::GenericError {})
                },
                Some(p) => {
                    // The slot is the anchor's parent: it holds the anchor,
                    // so it hosts no pane, and having failed the direct
                    // test it holds exactly two children.
                    proof {
                        assert(slot == p);
                        assert(id != m0.root);
                        lemma_attached_step(m0.nodes@, m0.root, id);
                        assert(attached_in(m0.nodes@, m0.root, p));
                        assert(node_ok(m0.nodes@, m0.root, p as int));
                        assert(node_ok(m0.nodes@, m0.root, id as int));
                        assert(m0.nodes@[p as int].children@.contains(id));
                        let t = choose|t: int|
                            0 <= t < m0.nodes@[p as int].children@.len()
                                && m0.nodes@[p as int].children@[t] == id;
                        assert(m0.nodes@[p as int].pane is None);
                        assert(m0.nodes@[p as int].children@.len() == 2);
                    }
                    let n: Id = self.nodes.len();
                    let leaf = Node::new(v, Orientation::Horizontal);
                    self.nodes.push(leaf);
                    let s: Id = self.nodes.len();
                    self.nodes[n].parent = Some(s);
                    let pos: usize = if self.nodes[p].children[0] == id {
                        0
                    } else {
                        1
                    };
                    proof {
                        assert(m0.nodes@[p as int].children@[pos as int] == id);
                    }
                    let mut split = Node::new_empty(orientation);
                    split.parent = Some(p);
                    if first {
                        split.children.push(n);
                        split.children.push(id);
                    } else {
                        split.children.push(id);
                        split.children.push(n);
                    }
                    self.nodes.push(split);
                    self.nodes[p].children[pos] = s;
                    self.nodes[id].parent = Some(s);
                    if v.focusable {
                        self.focus = n;
                    }
                    self.invalidated = true;
                    proof {
                        let nodes0 = m0.nodes@;
                        let nodes1 = self.nodes@;
                        let root = m0.root;
                        let len0 = nodes0.len() as int;
                        if first {
                            assert(nodes1[s as int].children@ =~= seq![n, id]);
                        } else {
                            assert(nodes1[s as int].children@ =~= seq![id, n]);
                        }
                        assert(id != root);
                        assert(p != id) by {
                            if p == id {
                                let k = choose|k: nat|
                                    reaches_root(nodes0, root, id, k);
                                assert(k != 0);
                                assert(reaches_root(nodes0, root, id, (k - 1) as nat));
                                lemma_reaches_unique(nodes0, root, id, k, (k - 1) as nat);
                            }
                        }
                        assert forall|j: int|
                            0 <= j < len0 && j != p && j != id implies nodes1[j] == nodes0[j] by {}
                        assert(nodes1[p as int].children@ == nodes0[p as int].children@.update(
                            pos as int,
                            s,
                        ));
                        lemma_add_wrap_links(
                            nodes0,
                            nodes1,
                            root,
                            id,
                            p,
                            n,
                            s,
                            pos,
                            first,
                        );
                        // Attachment is preserved for the old arena and
                        // gained by the two fresh nodes.
                        assert forall|i: Id|
                            (i as int) < len0 implies #[trigger] attached_in(nodes1, root, i)
                            == attached_in(nodes0, root, i) by {
                            if attached_in(nodes0, root, i) {
                                let k = choose|k: nat| reaches_root(nodes0, root, i, k);
                                lemma_wrap_old_to_new(nodes0, nodes1, root, id, s, i, k);
                            }
                            if attached_in(nodes1, root, i) {
                                let k = choose|k: nat| reaches_root(nodes1, root, i, k);
                                lemma_wrap_new_to_old(nodes0, nodes1, root, id, s, i, k);
                            }
                        }
                        assert(attached_in(nodes1, root, p));
                        lemma_attached_step(nodes1, root, s);
                        lemma_attached_step(nodes1, root, n);
                        assert(self.wf());
                        lemma_count_congruent(nodes0, root, nodes1, root, true, len0);
                        lemma_count_congruent(nodes0, root, nodes1, root, false, len0);
                        assert(attached_in(nodes1, root, (len0 as Id)));
                        assert(attached_in(nodes1, root, ((len0 + 1) as Id)));
                        assert(count_upto(nodes1, root, true, len0 + 2) == count_upto(
                            nodes1,
                            root,
                            true,
                            len0,
                        ) + 1) by {
                            reveal_with_fuel(count_upto, 3);
                        }
                        assert(count_upto(nodes1, root, false, len0 + 2) == count_upto(
                            nodes1,
                            root,
                            false,
                            len0,
                        ) + 1) by {
                            reveal_with_fuel(count_upto, 3);
                        }
                    }
                    Ok(n)
                },
            }
        }
    }
}

/// The one contract every insertion entry point shares.
pub open spec fn add_result_spec(
    m0: Mux,
    m1: Mux,
    v: Pane,
    anchor: Id,
    orientation: Orientation,
    first: bool,
    r: Result<Id, AddViewError>,
) -> bool {
    match r {
        Ok(n) => {
            &&& m0.is_attached(anchor)
            &&& add_common_spec(m0, m1, v, n)
            &&& if add_is_direct(m0, anchor) {
                add_direct_spec(m0, m1, anchor, v, orientation, first, n)
            } else {
                &&& m0.nodes@[anchor as int].parent is Some
                &&& add_wrap_spec(m0, m1, anchor, v, orientation, first, n)
            }
        },
        Err(e) => {
            &&& e == (AddViewError::GenericError {})
            &&& m1 == m0
            &&& (!m0.is_attached(anchor) || (!add_is_direct(m0, anchor) && m0.nodes@[
                anchor as int].parent is None))
        },
    }
}

/// Whether an attached `id` is the sole pane: it is the root itself, or
/// the single child of the root placeholder, so no sibling can take its
/// place.
pub open spec fn remove_sole(m: Mux, id: Id) -> bool {
    match m.nodes@[id as int].parent {
        None => true,
        Some(p) => m.nodes@[p as int].children@.len() < 2,
    }
}

/// The position of `id` among the two children of its parent.
pub open spec fn child_pos(m: Mux, p: int, id: Id) -> int {
    if m.nodes@[p].children@[0] == id {
        0
    } else {
        1
    }
}

/// The sibling that removal promotes into the removed node's place.
pub open spec fn sibling_of(m: Mux, id: Id) -> Id {
    let p = m.nodes@[id as int].parent.unwrap() as int;
    m.nodes@[p].children@[1 - child_pos(m, p, id)]
}

/// What a successful removal does: the node and its parent are detached,
/// the sibling takes the parent's place in the grandparent or becomes the
/// new root, and the sibling takes the focus. Every node outside the
/// removed subtree keeps its attachment; the subtree and the collapsed
/// parent lose theirs.
pub open spec fn remove_ok_spec(m0: Mux, m1: Mux, id: Id) -> bool {
    let len0 = m0.nodes@.len() as int;
    let p = m0.nodes@[id as int].parent.unwrap() as int;
    let sib = sibling_of(m0, id);
    &&& m1.nodes@.len() == len0
    &&& m1.focus == sib
    &&& m1.invalidated
    &&& m1.zoomed == m0.zoomed
    &&& m1.history == m0.history
    &&& m1.history_length == m0.history_length
    &&& m1.nodes@[id as int] == (Node { parent: None, ..m0.nodes@[id as int] })
    &&& node_same_data(m1.nodes@[p], m0.nodes@[p])
    &&& m1.nodes@[p].orientation == m0.nodes@[p].orientation
    &&& m1.nodes@[p].parent is None
    &&& m1.nodes@[p].children@.len() == 0
    &&& node_same_data(m1.nodes@[sib as int], m0.nodes@[sib as int])
    &&& m1.nodes@[sib as int].orientation == m0.nodes@[sib as int].orientation
    &&& m1.nodes@[sib as int].children == m0.nodes@[sib as int].children
    &&& m1.nodes@[sib as int].parent == m0.nodes@[p].parent
    &&& match m0.nodes@[p].parent {
        Some(g) => {
            &&& m1.root == m0.root
            &&& node_same_data(m1.nodes@[g as int], m0.nodes@[g as int])
            &&& m1.nodes@[g as int].orientation == m0.nodes@[g as int].orientation
            &&& m1.nodes@[g as int].parent == m0.nodes@[g as int].parent
            &&& m1.nodes@[g as int].children@ == m0.nodes@[g as int].children@.update(
                child_pos(m0, g as int, p as Id),
                sib,
            )
            &&& (forall|j: int|
                0 <= j < len0 && j != p && j != (id as int) && j != sib && j != g
                    ==> m1.nodes@[j] == m0.nodes@[j])
        },
        None => {
            &&& m1.root == sib
            &&& (forall|j: int|
                0 <= j < len0 && j != p && j != (id as int) && j != sib ==> m1.nodes@[j]
                    == m0.nodes@[j])
        },
    }
    &&& (forall|x: Id|
        (x as int) < len0 ==> #[trigger] m1.is_attached(x) == (m0.is_attached(x)
            && !in_subtree(m0.nodes@, id, x) && x != p as Id))
    &&& (m0.nodes@[id as int].pane is Some ==> m1.leaf_count() == m0.leaf_count() - 1
        && m1.split_count() == m0.split_count() - 1)
}

/// After a removal, every old chain from a node outside the removed
/// subtree survives, shortened by one where it stepped through the
/// collapsed parent.
proof fn lemma_remove_old_to_new(
    nodes0: Seq<Node>,
    nodes1: Seq<Node>,
    root0: Id,
    root1: Id,
    id: Id,
    p: Id,
    sib: Id,
    x: Id,
    k: nat,
)
    requires
        nodes0.len() == nodes1.len(),
        crate::tree::links_ok(nodes0, root0),
        attached_in(nodes0, root0, id),
        nodes0[id as int].parent == Some(p),
        (p as int) < nodes0.len(),
        nodes0[p as int].children@.len() == 2,
        nodes0[p as int].children@.contains(id),
        nodes0[p as int].children@.contains(sib),
        id != sib,
        id != p,
        sib != p,
        nodes0[sib as int].parent == Some(p),
        nodes1[id as int].parent is None,
        nodes1[p as int].parent is None,
        forall|j: int|
            0 <= j < nodes0.len() && j != (id as int) && j != (p as int) && j != (sib as int)
                ==> nodes1[j].parent == nodes0[j].parent,
        match nodes0[p as int].parent {
            Some(g) => nodes1[sib as int].parent == Some(g) && root1 == root0 && g != id && g != p
                && g != sib && (g as int) < nodes0.len(),
            None => nodes1[sib as int].parent is None && root1 == sib,
        },
        reaches_root(nodes0, root0, x, k),
        !in_subtree(nodes0, id, x),
        x != p,
        (x as int) < nodes0.len(),
    ensures
        attached_in(nodes1, root1, x),
    decreases k,
{
    reveal_with_fuel(reaches_node, 3);
    if k == 0 {
        match nodes0[p as int].parent {
            Some(g) => {
                assert(reaches_root(nodes1, root1, x, 0nat));
            },
            None => {
                assert(x == root0);
                lemma_attached_step(nodes0, root0, id);
                let n = choose|n: nat| reaches_root(nodes0, root0, p, n);
                assert(n == 0) by {
                    if n != 0 {
                        assert(nodes0[p as int].parent is Some);
                    }
                }
                assert(p == root0);
                assert(attached_in(nodes1, root1, x));
            },
        }
    } else {
        let q = nodes0[x as int].parent.unwrap();
        if x == sib {
            assert(q == p);
            match nodes0[p as int].parent {
                Some(g) => {
                    assert(k >= 2) by {
                        if k == 1 {
                            assert(p == root0);
                        }
                    }
                    assert(reaches_root(nodes0, root0, g, (k - 2) as nat));
                    assert(!in_subtree(nodes0, id, g)) by {
                        if in_subtree(nodes0, id, g) {
                            crate::tree::lemma_one_step(nodes0, sib, p);
                            crate::tree::lemma_one_step(nodes0, p, g);
                            crate::tree::lemma_chain_compose(nodes0, sib, p, g, 1nat, 1nat);
                            if g == id {
                                assert(reaches_node(nodes0, sib, id, 2nat));
                                assert(in_subtree(nodes0, id, sib));
                            } else {
                                let t = choose|t: nat| t > 0 && reaches_node(nodes0, g, id, t);
                                crate::tree::lemma_chain_compose(
                                    nodes0,
                                    sib,
                                    g,
                                    id,
                                    2nat,
                                    t,
                                );
                                assert(in_subtree(nodes0, id, sib));
                            }
                        }
                    }
                    lemma_remove_old_to_new(
                        nodes0,
                        nodes1,
                        root0,
                        root1,
                        id,
                        p,
                        sib,
                        g,
                        (k - 2) as nat,
                    );
                    let m = choose|m: nat| reaches_root(nodes1, root1, g, m);
                    assert(reaches_root(nodes1, root1, sib, (m + 1) as nat));
                },
                None => {
                    assert(reaches_root(nodes1, root1, sib, 0nat));
                },
            }
        } else {
            assert(x != id);
            assert(q != id) by {
                if q == id {
                    crate::tree::lemma_subtree_parent(nodes0, id, x, q);
                }
            }
            assert(q != p) by {
                if q == p {
                    assert(node_ok(nodes0, root0, x as int));
                    assert(nodes0[p as int].children@.contains(x));
                    let ti = choose|t: int|
                        0 <= t < nodes0[p as int].children@.len() && nodes0[p as int].children@[t]
                            == id;
                    let ts = choose|t: int|
                        0 <= t < nodes0[p as int].children@.len() && nodes0[p as int].children@[t]
                            == sib;
                    let tx = choose|t: int|
                        0 <= t < nodes0[p as int].children@.len() && nodes0[p as int].children@[t]
                            == x;
                    assert(ti != ts);
                    assert(tx == ti || tx == ts);
                }
            }
            assert(!in_subtree(nodes0, id, q)) by {
                if in_subtree(nodes0, id, q) {
                    crate::tree::lemma_subtree_parent(nodes0, id, x, q);
                }
            }
            assert(node_ok(nodes0, root0, x as int));
            assert((q as int) < nodes0.len());
            lemma_remove_old_to_new(nodes0, nodes1, root0, root1, id, p, sib, q, (k - 1) as nat);
            let m = choose|m: nat| reaches_root(nodes1, root1, q, m);
            assert(nodes1[x as int].parent == Some(q));
            assert(reaches_root(nodes1, root1, x, (m + 1) as nat));
        }
    }
}

/// The other direction: whatever is attached after the removal was
/// attached before, lies outside the removed subtree, and is not the
/// collapsed parent.
proof fn lemma_remove_new_to_old(
    nodes0: Seq<Node>,
    nodes1: Seq<Node>,
    root0: Id,
    root1: Id,
    id: Id,
    p: Id,
    sib: Id,
    x: Id,
    k: nat,
)
    requires
        nodes0.len() == nodes1.len(),
        crate::tree::links_ok(nodes0, root0),
        attached_in(nodes0, root0, id),
        nodes0[id as int].parent == Some(p),
        (p as int) < nodes0.len(),
        nodes0[p as int].children@.len() == 2,
        nodes0[p as int].children@.contains(id),
        nodes0[p as int].children@.contains(sib),
        id != sib,
        id != p,
        sib != p,
        (sib as int) < nodes0.len(),
        nodes0[sib as int].parent == Some(p),
        nodes1[id as int].parent is None,
        nodes1[p as int].parent is None,
        forall|j: int|
            0 <= j < nodes0.len() && j != (id as int) && j != (p as int) && j != (sib as int)
                ==> nodes1[j].parent == nodes0[j].parent,
        match nodes0[p as int].parent {
            Some(g) => nodes1[sib as int].parent == Some(g) && root1 == root0 && g != id && g != p
                && g != sib && (g as int) < nodes0.len(),
            None => nodes1[sib as int].parent is None && root1 == sib,
        },
        reaches_root(nodes1, root1, x, k),
        (x as int) < nodes0.len(),
    ensures
        attached_in(nodes0, root0, x),
        !in_subtree(nodes0, id, x),
        x != p,
    decreases k,
{
    reveal_with_fuel(reaches_node, 3);
    assert(attached_in(nodes0, root0, p)) by {
        crate::tree::lemma_attached_step(nodes0, root0, id);
    }
    assert(attached_in(nodes0, root0, sib)) by {
        crate::tree::lemma_attached_step(nodes0, root0, sib);
        assert(sib != root0);
    }
    assert(!in_subtree(nodes0, id, sib)) by {
        if is_ancestor(nodes0, id, sib) {
            let t = choose|t: nat| t > 0 && reaches_node(nodes0, sib, id, t);
            assert(reaches_node(nodes0, p, id, (t - 1) as nat));
            if t == 1 {
                assert(p == id);
            } else {
                crate::tree::lemma_one_step(nodes0, id, p);
                crate::tree::lemma_chain_compose(
                    nodes0,
                    id,
                    p,
                    id,
                    1nat,
                    (t - 1) as nat,
                );
                crate::tree::lemma_no_self_loop(nodes0, root0, id, t);
            }
        }
    }
    if k == 0 {
        match nodes0[p as int].parent {
            Some(g) => {
                assert(x == root0);
                assert(reaches_root(nodes0, root0, x, 0nat));
                assert(x != id) by {
                    if x == id {
                        assert(nodes0[id as int].parent is None);
                    }
                }
                assert(!in_subtree(nodes0, id, x)) by {
                    if is_ancestor(nodes0, id, x) {
                        let t = choose|t: nat| t > 0 && reaches_node(nodes0, x, id, t);
                        assert(nodes0[x as int].parent is Some);
                    }
                }
                assert(x != p) by {
                    if x == p {
                        assert(nodes0[p as int].parent is None);
                    }
                }
            },
            None => {
                assert(x == sib);
            },
        }
    } else {
        let q1 = nodes1[x as int].parent.unwrap();
        assert(x != id) by {
            if x == id {
                assert(nodes1[id as int].parent is None);
            }
        }
        assert(x != p) by {
            if x == p {
                assert(nodes1[p as int].parent is None);
            }
        }
        if x == sib {
            match nodes0[p as int].parent {
                Some(g) => {},
                None => {
                    assert(nodes1[sib as int].parent is None);
                },
            }
        } else {
            let q = nodes0[x as int].parent.unwrap();
            assert(q1 == q);
            assert(reaches_root(nodes1, root1, q, (k - 1) as nat));
            assert((q as int) < nodes0.len()) by {
                if k == 1 {
                    assert(q == root1);
                    match nodes0[p as int].parent {
                        Some(g) => {},
                        None => {},
                    }
                } else {
                    assert(nodes1[q as int].parent is Some);
                    if (q as int) >= nodes1.len() {
                        assert(reaches_root(nodes1, root1, q, (k - 1) as nat));
                    }
                }
            }
            lemma_remove_new_to_old(
                nodes0,
                nodes1,
                root0,
                root1,
                id,
                p,
                sib,
                q,
                (k - 1) as nat,
            );
            assert(attached_in(nodes0, root0, x)) by {
                let m = choose|m: nat| reaches_root(nodes0, root0, q, m);
                assert(reaches_root(nodes0, root0, x, (m + 1) as nat));
            }
            assert(!in_subtree(nodes0, id, x)) by {
                if is_ancestor(nodes0, id, x) {
                    let t = choose|t: nat| t > 0 && reaches_node(nodes0, x, id, t);
                    assert(reaches_node(nodes0, q, id, (t - 1) as nat));
                    if t == 1 {
                        assert(q == id);
                        assert(in_subtree(nodes0, id, q));
                    } else {
                        assert(is_ancestor(nodes0, id, q));
                    }
                }
            }
        }
    }
}

impl Mux {
    /// Removes the node `id` from the tree: its sibling takes over the
    /// space and the focus, and the parent split, left with a single
    /// child, collapses away. Fails with `InvalidId` for an id that is not
    /// attached and with `NoSibling` for the sole remaining pane; the tree
    /// is then unchanged.
    #[verifier::rlimit(100)]
    pub fn remove_id(&mut self, id: Id) -> (r: Result<Id, RemoveViewError>)
        requires
            old(self).wf(),
        ensures
            final(self).wf(),
            match r {
                Ok(out) => {
                    &&& out == id
                    &&& old(self).is_attached(id)
                    &&& !remove_sole(*old(self), id)
                    &&& remove_ok_spec(*old(self), *final(self), id)
                },
                Err(e) => {
                    &&& *final(self) == *old(self)
                    &&& match e {
                        RemoveViewError::InvalidId { id: bad } => bad == id && !old(
                            self,
                        ).is_attached(id),
                        RemoveViewError::NoSibling {} => old(self).is_attached(id)
                            && remove_sole(*old(self), id),
                    }
                },
            },
    {
        let ghost m0 = *self;
        if !self.is_attached_exec(id) {
            return Err(RemoveViewError::InvalidId { id });
        }
        match self.nodes[id].parent {
            None => Err(RemoveViewError::NoSibling {}),
            Some(p) => {
                proof {
                    assert(node_ok(m0.nodes@, m0.root, id as int));
                    assert(node_ok(m0.nodes@, m0.root, p as int));
                }
                if self.nodes[p].children.len() < 2 {
                    return Err(RemoveViewError::NoSibling {});
                }
                let pos: usize = if self.nodes[p].children[0] == id {
                    0
                } else {
                    1
                };
                proof {
                    assert(m0.nodes@[p as int].children@.contains(id));
                    if m0.nodes@[p as int].children@[0] != id {
                        let t = choose|t: int|
                            0 <= t < 2 && m0.nodes@[p as int].children@[t] == id;
                        assert(t == 1);
                    }
                }
                let sib: Id = self.nodes[p].children[1 - pos];
                proof {
                    assert(m0.nodes@[p as int].children@.contains(sib)) by {
                        assert(m0.nodes@[p as int].children@[1 - pos as int] == sib);
                    }
                    assert(sib != id);
                    lemma_attached_step(m0.nodes@, m0.root, id);
                    assert(id != p) by {
                        if id == p {
                            let k = choose|k: nat| reaches_root(m0.nodes@, m0.root, id, k);
                            assert(k != 0);
                            assert(reaches_root(m0.nodes@, m0.root, id, (k - 1) as nat));
                            lemma_reaches_unique(m0.nodes@, m0.root, id, k, (k - 1) as nat);
                        }
                    }
                    assert(m0.nodes@[sib as int].parent == Some(p));
                    assert(sib != p) by {
                        if sib == p {
                            let k = choose|k: nat| reaches_root(m0.nodes@, m0.root, p, k);
                            assert(k != 0);
                            assert(reaches_root(m0.nodes@, m0.root, p, (k - 1) as nat));
                            lemma_reaches_unique(m0.nodes@, m0.root, p, k, (k - 1) as nat);
                        }
                    }
                }
                self.nodes[id].parent = None;
                self.nodes[p].children.clear();
                let gparent = self.nodes[p].parent;
                match gparent {
                    Some(g) => {
                        proof {
                            reveal_with_fuel(reaches_node, 3);
                            assert(node_ok(m0.nodes@, m0.root, g as int));
                            assert(m0.nodes@[g as int].children@.contains(p as Id));
                            lemma_attached_step(m0.nodes@, m0.root, p);
                            assert(g != p) by {
                                if g == p {
                                    let k = choose|k: nat|
                                        reaches_root(m0.nodes@, m0.root, p, k);
                                    assert(k != 0);
                                    assert(reaches_root(
                                        m0.nodes@,
                                        m0.root,
                                        p,
                                        (k - 1) as nat,
                                    ));
                                    lemma_reaches_unique(
                                        m0.nodes@,
                                        m0.root,
                                        p,
                                        k,
                                        (k - 1) as nat,
                                    );
                                }
                            }
                            assert(g != id) by {
                                if g == id {
                                    crate::tree::lemma_one_step(m0.nodes@, id, p);
                                    crate::tree::lemma_one_step(m0.nodes@, p, id);
                                    crate::tree::lemma_chain_compose(
                                        m0.nodes@,
                                        id,
                                        p,
                                        id,
                                        1nat,
                                        1nat,
                                    );
                                    crate::tree::lemma_no_self_loop(
                                        m0.nodes@,
                                        m0.root,
                                        id,
                                        2nat,
                                    );
                                }
                            }
                            assert(g != sib) by {
                                if g == sib {
                                    lemma_attached_step(m0.nodes@, m0.root, sib);
                                    crate::tree::lemma_one_step(m0.nodes@, sib, p);
                                    crate::tree::lemma_one_step(m0.nodes@, p, sib);
                                    crate::tree::lemma_chain_compose(
                                        m0.nodes@,
                                        sib,
                                        p,
                                        sib,
                                        1nat,
                                        1nat,
                                    );
                                    crate::tree::lemma_no_self_loop(
                                        m0.nodes@,
                                        m0.root,
                                        sib,
                                        2nat,
                                    );
                                }
                            }
                        }
                        let gpos: usize = if self.nodes[g].children[0] == p {
                            0
                        } else {
                            1
                        };
                        proof {
                            if m0.nodes@[g as int].children@[0] != p {
                                let t = choose|t: int|
                                    0 <= t < m0.nodes@[g as int].children@.len() && m0.nodes@[
                                    g as int].children@[t] == p;
                                assert(t == 1);
                            }
                            assert(m0.nodes@[g as int].children@[gpos as int] == p);
                        }
                        self.nodes[g].children[gpos] = sib;
                        self.nodes[sib].parent = Some(g);
                        self.nodes[p].parent = None;
                    },
                    None => {
                        self.nodes[sib].parent = None;
                        self.root = sib;
                    },
                }
                self.focus = sib;
                self.invalidated = true;
                proof {
                    reveal_with_fuel(reaches_node, 3);
                    vstd::std_specs::vec::axiom_spec_len(&m0.nodes);
                    let nodes0 = m0.nodes@;
                    let nodes1 = self.nodes@;
                    let root0 = m0.root;
                    let root1 = self.root;
                    let len0 = nodes0.len() as int;
                    let gp = m0.nodes@[p as int].parent;
                    assert(m0.nodes@[p as int].children@.len() == 2);
                    lemma_attached_step(m0.nodes@, m0.root, sib);
                    assert(attached_in(nodes0, root0, sib));
                    assert(!in_subtree(nodes0, id, sib)) by {
                        if is_ancestor(nodes0, id, sib) {
                            let t = choose|t: nat| t > 0 && reaches_node(nodes0, sib, id, t);
                            assert(reaches_node(nodes0, p, id, (t - 1) as nat));
                            if t == 1 {
                                assert(p == id);
                            } else {
                                crate::tree::lemma_one_step(nodes0, id, p);
                                crate::tree::lemma_chain_compose(
                                    nodes0,
                                    id,
                                    p,
                                    id,
                                    1nat,
                                    (t - 1) as nat,
                                );
                                crate::tree::lemma_no_self_loop(nodes0, root0, id, t);
                            }
                        }
                    }
                    assert forall|x: Id|
                        (x as int) < len0 implies #[trigger] attached_in(nodes1, root1, x) == (
                    attached_in(nodes0, root0, x) && !in_subtree(nodes0, id, x) && x != p) by {
                        if attached_in(nodes0, root0, x) && !in_subtree(nodes0, id, x) && x != p {
                            let k = choose|k: nat| reaches_root(nodes0, root0, x, k);
                            lemma_remove_old_to_new(
                                nodes0,
                                nodes1,
                                root0,
                                root1,
                                id,
                                p,
                                sib,
                                x,
                                k,
                            );
                        }
                        if attached_in(nodes1, root1, x) {
                            let k = choose|k: nat| reaches_root(nodes1, root1, x, k);
                            lemma_remove_new_to_old(
                                nodes0,
                                nodes1,
                                root0,
                                root1,
                                id,
                                p,
                                sib,
                                x,
                                k,
                            );
                        }
                    }
                    lemma_remove_links(nodes0, nodes1, root0, root1, id, p, sib, gp);
                    assert(attached_in(nodes1, root1, sib));
                    assert(self.wf());
                    if nodes0[id as int].pane is Some {
                        assert(nodes0[id as int].children@.len() == 0);
                        assert forall|x: Id|
                            (x as int) < len0 implies #[trigger] attached_in(nodes1, root1, x)
                            == (attached_in(nodes0, root0, x) && (x as int) != id as int && (
                        x as int) != p as int) by {
                            assert(!is_ancestor(nodes0, id, x)) by {
                                if is_ancestor(nodes0, id, x) {
                                    let t = choose|t: nat|
                                        t > 0 && reaches_node(nodes0, x, id, t);
                                    crate::tree::lemma_childless_no_descendant(
                                        nodes0,
                                        root0,
                                        id,
                                        x,
                                        t,
                                    );
                                }
                            }
                        }
                        assert forall|i: int|
                            0 <= i < len0 implies #[trigger] attached_in(nodes1, root1, i as Id)
                            == (attached_in(nodes0, root0, i as Id) && i != id && i != p) by {
                            assert(attached_in(nodes1, root1, (i as Id)) == (attached_in(
                                nodes0,
                                root0,
                                (i as Id),
                            ) && !in_subtree(nodes0, id, (i as Id)) && (i as Id) != p));
                        }
                        crate::tree::lemma_count_drop2(
                            nodes0,
                            root0,
                            nodes1,
                            root1,
                            true,
                            id,
                            p,
                            len0,
                        );
                        crate::tree::lemma_count_drop2(
                            nodes0,
                            root0,
                            nodes1,
                            root1,
                            false,
                            id,
                            p,
                            len0,
                        );
                        assert(attached_in(nodes0, root0, p));
                    }
                }
                Ok(id)
            },
        }
    }
}

/// The children sequence with the two exchanged nodes renamed into each
/// other's places.
pub open spec fn swapped_children(ch: Seq<Id>, a: Id, b: Id) -> Seq<Id> {
    ch.map_values(
        |c: Id|
            if c == a {
                b
            } else if c == b {
                a
            } else {
                c
            },
    )
}

/// What a successful exchange does: the two nodes trade parents and trade
/// places among their parents' children; everything else, the focus and
/// the attachment of every node included, stays as it was.
pub open spec fn switch_ok_spec(m0: Mux, m1: Mux, fst: Id, snd: Id) -> bool {
    &&& m1.nodes@.len() == m0.nodes@.len()
    &&& m1.root == m0.root
    &&& m1.focus == m0.focus
    &&& m1.invalidated
    &&& m1.zoomed == m0.zoomed
    &&& m1.history == m0.history
    &&& m1.history_length == m0.history_length
    &&& (forall|j: int|
        0 <= j < m0.nodes@.len() ==> {
            &&& node_same_data(#[trigger] m1.nodes@[j], m0.nodes@[j])
            &&& m1.nodes@[j].orientation == m0.nodes@[j].orientation
            &&& m1.nodes@[j].children@ == swapped_children(m0.nodes@[j].children@, fst, snd)
            &&& m1.nodes@[j].parent == if j == fst as int {
                m0.nodes@[snd as int].parent
            } else if j == snd as int {
                m0.nodes@[fst as int].parent
            } else {
                m0.nodes@[j].parent
            }
        })
    &&& (forall|x: Id|
        (x as int) < m0.nodes@.len() ==> #[trigger] m1.is_attached(x) == m0.is_attached(x))
    &&& m1.leaf_count() == m0.leaf_count()
    &&& m1.split_count() == m0.split_count()
}

/// After the exchange, every node that was attached still is: chains pass
/// the moved nodes into their new parents, whose own chains never met the
/// moved pair.
proof fn lemma_swap_old_to_new(
    nodes0: Seq<Node>,
    nodes1: Seq<Node>,
    root: Id,
    a: Id,
    b: Id,
    x: Id,
    k: nat,
)
    requires
        nodes0.len() == nodes1.len(),
        (root as int) < nodes0.len(),
        forall|j: int|
            0 <= j < nodes0.len() && j != a && j != b ==> nodes1[j].parent == nodes0[j].parent,
        attached_in(nodes1, root, parent_of(nodes1, a)),
        attached_in(nodes1, root, parent_of(nodes1, b)),
        nodes1[a as int].parent is Some,
        nodes1[b as int].parent is Some,
        a != root,
        b != root,
        (a as int) < nodes0.len(),
        (b as int) < nodes0.len(),
        forall|j: int| 0 <= j < nodes0.len() ==> parent_in_range(nodes0, j, nodes0.len() as int),
        reaches_root(nodes0, root, x, k),
        (x as int) < nodes0.len(),
    ensures
        attached_in(nodes1, root, x),
    decreases k,
{
    if k == 0 {
        assert(reaches_root(nodes1, root, x, 0nat));
    } else if x == a {
        let q = parent_of(nodes1, a);
        let m = choose|m: nat| reaches_root(nodes1, root, q, m);
        assert(reaches_root(nodes1, root, a, (m + 1) as nat));
    } else if x == b {
        let q = parent_of(nodes1, b);
        let m = choose|m: nat| reaches_root(nodes1, root, q, m);
        assert(reaches_root(nodes1, root, b, (m + 1) as nat));
    } else {
        let q = nodes0[x as int].parent.unwrap();
        assert(parent_in_range(nodes0, x as int, nodes0.len() as int));
        lemma_swap_old_to_new(nodes0, nodes1, root, a, b, q, (k - 1) as nat);
        let m = choose|m: nat| reaches_root(nodes1, root, q, m);
        assert(nodes1[x as int].parent == Some(q));
        assert(reaches_root(nodes1, root, x, (m + 1) as nat));
    }
}

/// The parent of `i`, assumed present.
pub open spec fn parent_of(nodes: Seq<Node>, i: Id) -> Id {
    nodes[i as int].parent.unwrap()
}

/// The reverse direction: chains of the exchanged arena project back, the
/// moved pair being attached already.
proof fn lemma_swap_new_to_old(
    nodes0: Seq<Node>,
    nodes1: Seq<Node>,
    root: Id,
    a: Id,
    b: Id,
    x: Id,
    k: nat,
)
    requires
        nodes0.len() == nodes1.len(),
        (root as int) < nodes0.len(),
        forall|j: int|
            0 <= j < nodes0.len() && j != a && j != b ==> nodes1[j].parent == nodes0[j].parent,
        attached_in(nodes0, root, a),
        attached_in(nodes0, root, b),
        reaches_root(nodes1, root, x, k),
        (x as int) < nodes0.len(),
    ensures
        attached_in(nodes0, root, x),
    decreases k,
{
    if k == 0 {
        assert(reaches_root(nodes0, root, x, 0nat));
    } else if x == a || x == b {
    } else {
        let q = nodes1[x as int].parent.unwrap();
        assert(nodes0[x as int].parent == Some(q));
        assert((q as int) < nodes0.len()) by {
            if (q as int) >= nodes0.len() {
                assert(reaches_root(nodes1, root, q, (k - 1) as nat));
                assert(k - 1 == 0 ==> q == root);
                if k - 1 > 0 {
                    assert((q as int) < nodes1.len());
                }
            }
        }
        lemma_swap_new_to_old(nodes0, nodes1, root, a, b, q, (k - 1) as nat);
        let m = choose|m: nat| reaches_root(nodes0, root, q, m);
        assert(reaches_root(nodes0, root, x, (m + 1) as nat));
    }
}

impl Mux {
    /// Exchanges the positions of two attached views: each takes the slot
    /// the other held, orientation and ratio of both parent splits
    /// untouched. Fails with `NoParent` where an operand is the parentless
    /// root or not attached at all, and with `Failed` where one operand
    /// sits above the other; the tree is then unchanged.
    #[verifier::rlimit(100)]
    pub fn switch_views(&mut self, fst: Id, snd: Id) -> (r: Result<(), SwitchError>)
        requires
            old(self).wf(),
        ensures
            final(self).wf(),
            match r {
                Ok(()) => {
                    &&& old(self).is_attached(fst)
                    &&& old(self).is_attached(snd)
                    &&& old(self).nodes@[fst as int].parent is Some
                    &&& old(self).nodes@[snd as int].parent is Some
                    &&& !is_ancestor(old(self).nodes@, fst, snd)
                    &&& !is_ancestor(old(self).nodes@, snd, fst)
                    &&& switch_ok_spec(*old(self), *final(self), fst, snd)
                },
                Err(e) => {
                    &&& *final(self) == *old(self)
                    &&& match e {
                        SwitchError::NoParent { from, to } => {
                            ||| (from == fst && to == snd && !(old(self).is_attached(fst)
                                && old(self).nodes@[fst as int].parent is Some))
                            ||| (from == snd && to == fst && old(self).is_attached(fst) && old(
                                self,
                            ).nodes@[fst as int].parent is Some && !(old(self).is_attached(snd)
                                && old(self).nodes@[snd as int].parent is Some))
                        },
                        SwitchError::Failed {} => {
                            &&& old(self).is_attached(fst)
                            &&& old(self).is_attached(snd)
                            &&& fst != snd
                            &&& (is_ancestor(old(self).nodes@, fst, snd) || is_ancestor(
                                old(self).nodes@,
                                snd,
                                fst,
                            ))
                        },
                    }
                },
            },
    {
        let ghost m0 = *self;
        if !self.is_attached_exec(fst) {
            return Err(SwitchError::NoParent { from: fst, to: snd });
        }
        if self.nodes[fst].parent.is_none() {
            return Err(SwitchError::NoParent { from: fst, to: snd });
        }
        if !self.is_attached_exec(snd) {
            return Err(SwitchError::NoParent { from: snd, to: fst });
        }
        if self.nodes[snd].parent.is_none() {
            return Err(SwitchError::NoParent { from: snd, to: fst });
        }
        proof {
            assert(fst != m0.root && snd != m0.root) by {
                assert(m0.nodes@[m0.root as int].parent is None);
            }
        }
        if fst == snd {
            self.invalidated = true;
            proof {
                assert(!is_ancestor(m0.nodes@, fst, snd)) by {
                    if is_ancestor(m0.nodes@, fst, fst) {
                        let t = choose|t: nat| t > 0 && reaches_node(m0.nodes@, fst, fst, t);
                        crate::tree::lemma_no_self_loop(m0.nodes@, m0.root, fst, t);
                    }
                }
                assert forall|j: int| 0 <= j < m0.nodes@.len() implies self.nodes@[j].children@
                    == swapped_children(m0.nodes@[j].children@, fst, snd) by {
                    assert(self.nodes@[j].children@ =~= swapped_children(
                        m0.nodes@[j].children@,
                        fst,
                        snd,
                    ));
                }
            }
            return Ok(());
        }
        if self.is_ancestor_exec(fst, snd) {
            return Err(SwitchError::Failed {});
        }
        if self.is_ancestor_exec(snd, fst) {
            return Err(SwitchError::Failed {});
        }
        let p1: Id = match self.nodes[fst].parent {
            Some(p) => p,
            None => fst,
        };
        let p2: Id = match self.nodes[snd].parent {
            Some(p) => p,
            None => snd,
        };
        proof {
            reveal_with_fuel(reaches_node, 3);
            assert(node_ok(m0.nodes@, m0.root, fst as int));
            assert(node_ok(m0.nodes@, m0.root, snd as int));
            assert(node_ok(m0.nodes@, m0.root, p1 as int));
            assert(node_ok(m0.nodes@, m0.root, p2 as int));
            assert(m0.nodes@[p1 as int].children@.contains(fst));
            assert(m0.nodes@[p2 as int].children@.contains(snd));
            assert(fst != p1 && snd != p2) by {
                if fst == p1 {
                    crate::tree::lemma_one_step(m0.nodes@, fst, fst);
                    crate::tree::lemma_no_self_loop(m0.nodes@, m0.root, fst, 1nat);
                }
                if snd == p2 {
                    crate::tree::lemma_one_step(m0.nodes@, snd, snd);
                    crate::tree::lemma_no_self_loop(m0.nodes@, m0.root, snd, 1nat);
                }
            }
            assert(fst != p2) by {
                if fst == p2 {
                    crate::tree::lemma_one_step(m0.nodes@, snd, fst);
                }
            }
            assert(snd != p1) by {
                if snd == p1 {
                    crate::tree::lemma_one_step(m0.nodes@, fst, snd);
                }
            }
        }
        let pos1: usize = if self.nodes[p1].children[0] == fst {
            0
        } else {
            1
        };
        let pos2: usize = if self.nodes[p2].children[0] == snd {
            0
        } else {
            1
        };
        proof {
            if m0.nodes@[p1 as int].children@[0] != fst {
                let t = choose|t: int|
                    0 <= t < m0.nodes@[p1 as int].children@.len() && m0.nodes@[
                    p1 as int].children@[t] == fst;
                assert(t == 1);
            }
            assert(m0.nodes@[p1 as int].children@[pos1 as int] == fst);
            if m0.nodes@[p2 as int].children@[0] != snd {
                let t = choose|t: int|
                    0 <= t < m0.nodes@[p2 as int].children@.len() && m0.nodes@[
                    p2 as int].children@[t] == snd;
                assert(t == 1);
            }
            assert(m0.nodes@[p2 as int].children@[pos2 as int] == snd);
        }
        self.nodes[p1].children[pos1] = snd;
        self.nodes[p2].children[pos2] = fst;
        self.nodes[fst].parent = Some(p2);
        self.nodes[snd].parent = Some(p1);
        self.invalidated = true;
        proof {
            reveal_with_fuel(reaches_node, 3);
            vstd::std_specs::vec::axiom_spec_len(&m0.nodes);
            let nodes0 = m0.nodes@;
            let nodes1 = self.nodes@;
            let root = m0.root;
            let len0 = nodes0.len() as int;
            lemma_attached_step(nodes0, root, fst);
            lemma_attached_step(nodes0, root, snd);
            assert(attached_in(nodes0, root, p1));
            assert(attached_in(nodes0, root, p2));
            // The new parents of the moved pair were never above either of
            // them, so their chains survive untouched.
            assert(!in_subtree(nodes0, fst, p2)) by {
                if is_ancestor(nodes0, fst, p2) {
                    let t = choose|t: nat| t > 0 && reaches_node(nodes0, p2, fst, t);
                    crate::tree::lemma_one_step(nodes0, snd, p2);
                    crate::tree::lemma_chain_compose(nodes0, snd, p2, fst, 1nat, t);
                    assert(is_ancestor(nodes0, fst, snd));
                }
            }
            assert(!in_subtree(nodes0, snd, p2)) by {
                if is_ancestor(nodes0, snd, p2) {
                    let t = choose|t: nat| t > 0 && reaches_node(nodes0, p2, snd, t);
                    crate::tree::lemma_one_step(nodes0, snd, p2);
                    crate::tree::lemma_chain_compose(nodes0, snd, p2, snd, 1nat, t);
                    crate::tree::lemma_no_self_loop(nodes0, root, snd, (1 + t) as nat);
                }
            }
            assert(!in_subtree(nodes0, snd, p1)) by {
                if is_ancestor(nodes0, snd, p1) {
                    let t = choose|t: nat| t > 0 && reaches_node(nodes0, p1, snd, t);
                    crate::tree::lemma_one_step(nodes0, fst, p1);
                    crate::tree::lemma_chain_compose(nodes0, fst, p1, snd, 1nat, t);
                    assert(is_ancestor(nodes0, snd, fst));
                }
            }
            assert(!in_subtree(nodes0, fst, p1)) by {
                if is_ancestor(nodes0, fst, p1) {
                    let t = choose|t: nat| t > 0 && reaches_node(nodes0, p1, fst, t);
                    crate::tree::lemma_one_step(nodes0, fst, p1);
                    crate::tree::lemma_chain_compose(nodes0, fst, p1, fst, 1nat, t);
                    crate::tree::lemma_no_self_loop(nodes0, root, fst, (1 + t) as nat);
                }
            }
            assert(attached_in(nodes1, root, p1)) by {
                let k = choose|k: nat| reaches_root(nodes0, root, p1, k);
                crate::tree::lemma_chain_outside(nodes0, nodes1, fst, snd, root, p1, k);
                assert(reaches_root(nodes1, root, p1, k));
            }
            assert(attached_in(nodes1, root, p2)) by {
                let k = choose|k: nat| reaches_root(nodes0, root, p2, k);
                crate::tree::lemma_chain_outside(nodes0, nodes1, fst, snd, root, p2, k);
                assert(reaches_root(nodes1, root, p2, k));
            }
            assert(parent_of(nodes1, fst) == p2 && parent_of(nodes1, snd) == p1);
            assert forall|j: int|
                0 <= j < nodes0.len() implies parent_in_range(nodes0, j, nodes0.len() as int) by {
                assert(node_ok(nodes0, root, j));
            }
            assert forall|x: Id|
                (x as int) < len0 implies #[trigger] attached_in(nodes1, root, x) == attached_in(
                nodes0,
                root,
                x,
            ) by {
                if attached_in(nodes0, root, x) {
                    let k = choose|k: nat| reaches_root(nodes0, root, x, k);
                    lemma_swap_old_to_new(nodes0, nodes1, root, fst, snd, x, k);
                }
                if attached_in(nodes1, root, x) {
                    let k = choose|k: nat| reaches_root(nodes1, root, x, k);
                    lemma_swap_new_to_old(nodes0, nodes1, root, fst, snd, x, k);
                }
            }
            // Each children sequence is the swapped image of the old one.
            assert forall|j: int|
                0 <= j < len0 implies parent_in_range(nodes0, j, nodes0.len() as int) by {
                assert(node_ok(nodes0, root, j));
            }
            lemma_switch_links(nodes0, nodes1, root, fst, snd, p1, p2, pos1, pos2);
            assert(self.wf());
            lemma_count_congruent(nodes0, root, nodes1, root, true, len0);
            lemma_count_congruent(nodes0, root, nodes1, root, false, len0);
        }
        Ok(())
    }
}

} // verus!
