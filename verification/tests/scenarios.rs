//! Scenario checks of the engine's stated behaviour: the split-and-wrap
//! shapes, the history override, the resize bound, the error cases, the
//! hit test, and the bounded history.

use mux::AddViewError;
use mux::Dir;
use mux::Id;
use mux::Mux;
use mux::Pane;
use mux::RemoveViewError;
use mux::RenderCmd;
use mux::SwitchError;
use mux::XY;

fn pane() -> Pane {
    Pane { focusable: true, size_request: None }
}

fn rect_of(cmds: &Vec<RenderCmd>, id: Id) -> (XY, XY) {
    for c in cmds.iter() {
        if let RenderCmd::Pane { id: pid, pos, size, .. } = c {
            if *pid == id {
                return (*pos, *size);
            }
        }
    }
    panic!("pane missing from the render plan");
}

#[test]
fn center_right_bottom_history() {
    // Insert a root pane, one pane to its right, one below that; the tree
    // is Split(H) of the center and a Split(V) of the right-hand pair.
    let mut mux = Mux::new();
    let center = mux.add_right_of(pane(), mux.root().build().unwrap()).unwrap();
    let right = mux.add_right_of(pane(), center).unwrap();
    let right_bottom = mux.add_below(pane(), right).unwrap();
    let root = mux.root;
    assert_eq!(mux.nodes[root].children.len(), 2);
    assert_eq!(mux.nodes[root].children[0], center);
    let vsplit = mux.nodes[root].children[1];
    assert!(mux.nodes[vsplit].pane.is_none());
    assert_eq!(mux.nodes[vsplit].children[0], right);
    assert_eq!(mux.nodes[vsplit].children[1], right_bottom);

    // Moving left from the bottom-right pane lands on the center pane;
    // moving right immediately afterwards returns to the bottom-right
    // pane through the history, not to its geometric neighbour.
    assert_eq!(mux.focus(), right_bottom);
    assert!(mux.move_focus(Dir::Left));
    assert_eq!(mux.focus(), center);
    assert!(mux.move_focus(Dir::Right));
    assert_eq!(mux.focus(), right_bottom);
}

#[test]
fn resize_extents_sum_to_eighty() {
    // An 80 by 24 region with two equal horizontal panes: each resize to
    // the right grows the left pane by one cell and shrinks the right one
    // by one, the extents always summing to 80.
    let mut mux = Mux::new();
    let left = mux.add_right_of(pane(), mux.root().build().unwrap()).unwrap();
    let right = mux.add_right_of(pane(), left).unwrap();
    let screen = XY { x: 80, y: 24 };
    mux.layout(screen);
    let cmds = mux.render_plan(screen);
    let (_, l0) = rect_of(&cmds, left);
    let (_, r0) = rect_of(&cmds, right);
    assert_eq!(l0.x, 40);
    assert_eq!(r0.x, 40);
    mux.set_focus(left);
    let mut expected: usize = 40;
    for _ in 0..10 {
        assert!(mux.resize(Dir::Right));
        expected += 1;
        mux.layout(screen);
        let cmds = mux.render_plan(screen);
        let (_, l) = rect_of(&cmds, left);
        let (r_pos, r) = rect_of(&cmds, right);
        assert_eq!(l.x, expected);
        assert_eq!(r.x, 80 - expected);
        assert_eq!(r_pos.x, expected);
        assert_eq!(l.x + r.x, 80);
    }
}

#[test]
fn resize_stops_at_minimum() {
    // However often the resize is repeated in one direction, neither
    // side's extent drops below one cell.
    let mut mux = Mux::new();
    let left = mux.add_right_of(pane(), mux.root().build().unwrap()).unwrap();
    let right = mux.add_right_of(pane(), left).unwrap();
    let screen = XY { x: 8, y: 4 };
    mux.layout(screen);
    mux.set_focus(left);
    for _ in 0..50 {
        mux.resize(Dir::Right);
        mux.layout(screen);
        let cmds = mux.render_plan(screen);
        let (_, l) = rect_of(&cmds, left);
        let (_, r) = rect_of(&cmds, right);
        assert!(l.x >= 1);
        assert!(r.x >= 1);
        assert_eq!(l.x + r.x, 8);
    }
    // The bound has been reached: a further step in the same direction is
    // refused, a step back is always allowed.
    assert!(!mux.resize(Dir::Right));
    assert!(mux.resize(Dir::Left));
}

#[test]
fn remove_sole_pane_fails() {
    // Removing the sole pane of a single-pane engine fails for want of a
    // sibling, and the tree is unchanged.
    let mut mux = Mux::new();
    let only = mux.add_right_of(pane(), mux.root().build().unwrap()).unwrap();
    let nodes_before = mux.nodes.len();
    let focus_before = mux.focus();
    match mux.remove_id(only) {
        Err(RemoveViewError::NoSibling {}) => {},
        _ => assert!(false),
    }
    assert_eq!(mux.nodes.len(), nodes_before);
    assert_eq!(mux.focus(), focus_before);
    assert_eq!(mux.nodes[mux.root].children[0], only);
}

#[test]
fn remove_detached_id_fails() {
    let mut mux = Mux::new();
    let a = mux.add_right_of(pane(), mux.root().build().unwrap()).unwrap();
    let b = mux.add_right_of(pane(), a).unwrap();
    mux.remove_id(b).unwrap();
    match mux.remove_id(b) {
        Err(RemoveViewError::InvalidId { id }) => assert_eq!(id, b),
        _ => assert!(false),
    }
    match mux.remove_id(1000) {
        Err(RemoveViewError::InvalidId { id }) => assert_eq!(id, 1000),
        _ => assert!(false),
    }
}

#[test]
fn switch_error_cases() {
    let mut mux = Mux::new();
    let a = mux.add_right_of(pane(), mux.root().build().unwrap()).unwrap();
    let b = mux.add_right_of(pane(), a).unwrap();
    let c = mux.add_below(pane(), b).unwrap();
    // The b/c pair hangs under a fresh split; exchanging that split with
    // one of its own descendants would tear the tree.
    let root = mux.root;
    let vsplit = mux.nodes[root].children[1];
    match mux.switch_views(vsplit, c) {
        Err(SwitchError::Failed {}) => {},
        _ => assert!(false),
    }
    // The parentless root cannot be exchanged.
    match mux.switch_views(root, a) {
        Err(SwitchError::NoParent { from, to }) => {
            assert_eq!(from, root);
            assert_eq!(to, a);
        },
        _ => assert!(false),
    }
    // A stale operand is reported by the same error.
    mux.remove_id(c).unwrap();
    match mux.switch_views(a, c) {
        Err(SwitchError::NoParent { from, to }) => {
            assert_eq!(from, c);
            assert_eq!(to, a);
        },
        _ => assert!(false),
    }
}

#[test]
fn add_rejects_bad_anchors() {
    let mut mux = Mux::new();
    match mux.add_right_of(pane(), 77) {
        Err(AddViewError::GenericError {}) => {},
        _ => assert!(false),
    }
    let a = mux.add_right_of(pane(), mux.root().build().unwrap()).unwrap();
    let _b = mux.add_right_of(pane(), a).unwrap();
    // The full root itself cannot be wrapped in place.
    match mux.add_right_of(pane(), mux.root) {
        Err(AddViewError::GenericError {}) => {},
        _ => assert!(false),
    }
}

#[test]
fn switch_twice_restores_positions() {
    let mut mux = Mux::new();
    let a = mux.add_right_of(pane(), mux.root().build().unwrap()).unwrap();
    let b = mux.add_right_of(pane(), a).unwrap();
    let c = mux.add_below(pane(), b).unwrap();
    let screen = XY { x: 80, y: 24 };
    mux.layout(screen);
    let before = mux.render_plan(screen);
    mux.switch_views(a, c).unwrap();
    mux.switch_views(a, c).unwrap();
    mux.layout(screen);
    let after = mux.render_plan(screen);
    for id in [a, b, c].iter() {
        assert_eq!(rect_of(&before, *id), rect_of(&after, *id));
    }
}

#[test]
fn clicked_pane_excludes_origin() {
    let mut mux = Mux::new();
    let left = mux.add_right_of(pane(), mux.root().build().unwrap()).unwrap();
    let right = mux.add_right_of(pane(), left).unwrap();
    mux.layout(XY { x: 80, y: 24 });
    // The origin cell of a pane's rectangle is excluded from its hit
    // area, and the end of the rectangle is inclusive.
    assert_eq!(mux.clicked_pane(XY { x: 0, y: 0 }), None);
    assert_eq!(mux.clicked_pane(XY { x: 5, y: 3 }), Some(left));
    assert_eq!(mux.clicked_pane(XY { x: 40, y: 3 }), Some(left));
    assert_eq!(mux.clicked_pane(XY { x: 45, y: 3 }), Some(right));
    mux.zoom_focus();
    assert_eq!(mux.clicked_pane(XY { x: 5, y: 3 }), None);
}

#[test]
fn history_is_bounded() {
    let mut mux = Mux::new();
    let left = mux.add_right_of(pane(), mux.root().build().unwrap()).unwrap();
    let _right = mux.add_right_of(pane(), left).unwrap();
    for _ in 0..40 {
        assert!(mux.move_focus(Dir::Left));
        assert!(mux.move_focus(Dir::Right));
    }
    assert_eq!(mux.history.len(), 50);
    assert_eq!(mux.history_length, 50);
}

#[test]
fn zoom_hides_all_but_focus() {
    let mut mux = Mux::new();
    let a = mux.add_right_of(pane(), mux.root().build().unwrap()).unwrap();
    let b = mux.add_right_of(pane(), a).unwrap();
    assert!(mux.zoom_focus());
    let screen = XY { x: 80, y: 24 };
    mux.layout(screen);
    let cmds = mux.render_plan(screen);
    assert_eq!(cmds.len(), 1);
    let (pos, size) = rect_of(&cmds, b);
    assert_eq!(pos, XY { x: 0, y: 0 });
    assert_eq!(size, screen);
    // Movement is ignored while zoomed; unzooming restores it.
    assert!(!mux.move_focus(Dir::Left));
    assert!(mux.zoom_focus());
    assert!(mux.move_focus(Dir::Left));
    assert_eq!(mux.focus(), a);
}

#[test]
fn insertion_and_removal_change_one_leaf() {
    let mut mux = Mux::new();
    let screen = XY { x: 80, y: 24 };
    let mut count_panes = |m: &mut Mux| -> usize {
        m.layout(screen);
        let cmds = m.render_plan(screen);
        let mut n = 0;
        for c in cmds.iter() {
            if let RenderCmd::Pane { .. } = c {
                n += 1;
            }
        }
        n
    };
    let a = mux.add_right_of(pane(), mux.root().build().unwrap()).unwrap();
    assert_eq!(count_panes(&mut mux), 1);
    let b = mux.add_right_of(pane(), a).unwrap();
    assert_eq!(count_panes(&mut mux), 2);
    let _c = mux.add_below(pane(), b).unwrap();
    assert_eq!(count_panes(&mut mux), 3);
    mux.remove_id(b).unwrap();
    assert_eq!(count_panes(&mut mux), 2);
}
