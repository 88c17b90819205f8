//! The engine's laws, stated and proved over the same spec functions its
//! public contracts use.

use vstd::prelude::*;

use crate::Dir;
use crate::HistoryEntry;
use crate::Id;
use crate::Mux;
use crate::actions::hist_goal_valid;
use crate::actions::hist_hit;
use crate::id::node_same_data;
use crate::id::swapped_children;
use crate::id::switch_ok_spec;
use crate::node::offset_dec_ok;
use crate::node::offset_inc_ok;
use crate::render::spec_first_extent;
use crate::render::MIN_EXTENT;
use crate::tree::node_ok;

verus! {

/// In a well-formed tree every attached node other than the root has zero
/// or two children, never one; only the root placeholder may briefly hold
/// a single pane.
pub proof fn lemma_children_never_one(m: Mux, i: Id)
    requires
        m.wf(),
        (i as int) < m.nodes@.len(),
        i != m.root,
    ensures
        m.nodes@[i as int].children@.len() != 1,
{
    assert(node_ok(m.nodes@, m.root, i as int));
}

/// In a well-formed tree the focus always resolves to an attached node;
/// every operation's contract hands the well-formedness on, so this holds
/// after any sequence of operations.
pub proof fn lemma_focus_attached(m: Mux)
    requires
        m.wf(),
    ensures
        m.is_attached(m.focus),
{
}

/// Exchanging two views twice restores the original tree shape: every
/// node's links, orientation and content, the root and the focus are back
/// where they started.
pub proof fn lemma_switch_twice_restores_shape(m0: Mux, m1: Mux, m2: Mux, a: Id, b: Id)
    requires
        m0.wf(),
        (a as int) < m0.nodes@.len(),
        (b as int) < m0.nodes@.len(),
        switch_ok_spec(m0, m1, a, b),
        switch_ok_spec(m1, m2, a, b),
    ensures
        m2.shape() == m0.shape(),
        forall|j: int| 0 <= j < m0.nodes@.len() ==> node_same_data(#[trigger] m2.nodes@[j], m0.nodes@[j]),
        m2.root == m0.root,
        m2.focus == m0.focus,
        m2.leaf_count() == m0.leaf_count(),
        m2.split_count() == m0.split_count(),
{
    assert forall|j: int|
        0 <= j < m0.nodes@.len() implies m2.nodes@[j].children@ == m0.nodes@[j].children@ by {
        assert(m1.nodes@[j].children@ == swapped_children(m0.nodes@[j].children@, a, b));
        assert(m2.nodes@[j].children@ == swapped_children(m1.nodes@[j].children@, a, b));
        assert forall|t: int|
            0 <= t < m0.nodes@[j].children@.len() implies m2.nodes@[j].children@[t] == m0.nodes@[
            j].children@[t] by {
            assert(m1.nodes@[j].children@[t] == swapped_children(
                m0.nodes@[j].children@,
                a,
                b,
            )[t]);
            assert(m2.nodes@[j].children@[t] == swapped_children(
                m1.nodes@[j].children@,
                a,
                b,
            )[t]);
        }
        assert(m2.nodes@[j].children@ =~= m0.nodes@[j].children@);
    }
    assert forall|j: int|
        0 <= j < m0.nodes@.len() implies m2.nodes@[j].parent == m0.nodes@[j].parent by {}
    assert(m2.shape() =~= m0.shape());
}

/// Navigation reciprocity through the history: after a move in some
/// direction landed the focus on `b` coming from the still-valid pane
/// `a`, the history scan for the exact opposite move out of `b` names
/// `a`, whatever pane would be the geometric neighbour; and whenever the
/// reverse move's ascent finds a turn point at all, the whole reverse
/// move is consumed and puts the focus back on `a`. Together with
/// `move_focus`'s contract this pins the reverse move's outcome.
pub proof fn lemma_history_reciprocity(m: Mux, a: Id, b: Id, direction: Dir)
    requires
        m.wf(),
        m.history@.len() > 0,
        m.history@.last() == (HistoryEntry { from: a, to: b, direction }),
        hist_goal_valid(m, a),
    ensures
        hist_hit(m, m.history@, b, direction.invert()) == Some(a),
        crate::actions::spec_search_from(m, direction.invert(), b) is Some
            ==> crate::actions::spec_move_outcome(
            m,
            direction.invert(),
            b,
            b,
            m.nodes@.len() as nat,
        ) == Some(a),
{
    let d2 = direction.invert();
    assert(hist_hit(m, m.history@, b, d2) == Some(a));
    if crate::actions::spec_search_from(m, d2, b) is Some {
        let pt = crate::actions::spec_search_from(m, d2, b).unwrap();
        assert(crate::actions::spec_traverse(m, pt.0, pt.1, d2, b) == Some(a));
        assert(m.nodes@.len() > 0);
        assert(crate::actions::spec_move_outcome(m, d2, b, b, m.nodes@.len() as nat) == Some(
            a,
        ));
    }
}

/// Resizing never drives either child's extent below the minimum
/// threshold, however often it is repeated in one direction: a permitted
/// step away from the center leaves both extents at least the minimum,
/// and a step back towards the center never shrinks the smaller side.
pub proof fn lemma_resize_keeps_minimum(t: int, off: int, forward: bool)
    requires
        t >= 0,
        i16::MIN <= off <= i16::MAX,
        if forward {
            offset_inc_ok(t, off)
        } else {
            offset_dec_ok(t, off)
        },
    ensures
        ({
            let noff = if forward {
                off + 1
            } else {
                off - 1
            };
            let e1 = spec_first_extent(t, noff);
            &&& (forward && off >= 0) ==> e1 >= MIN_EXTENT && t - e1 >= MIN_EXTENT
            &&& (!forward && off <= 0) ==> e1 >= MIN_EXTENT && t - e1 >= MIN_EXTENT
            &&& (forward && off < 0) ==> vstd::math::min(e1, t - e1) >= vstd::math::min(
                spec_first_extent(t, off),
                t - spec_first_extent(t, off),
            )
            &&& (!forward && off > 0) ==> vstd::math::min(e1, t - e1) >= vstd::math::min(
                spec_first_extent(t, off),
                t - spec_first_extent(t, off),
            )
        }),
{
}

} // verus!
