//! End-to-end scenarios over an 80 by 24 cell rectangle: building layouts,
//! moving focus, resizing, switching, removing and zooming, checked
//! against the engine's computed geometry and focus.

use mux::Dir;
use mux::Id;
use mux::Mux;
use mux::Pane;
use mux::RenderCmd;
use mux::XY;

fn text_view() -> Pane {
    Pane { focusable: false, size_request: None }
}

fn text_area() -> Pane {
    Pane { focusable: true, size_request: None }
}

fn fixed(w: usize, h: usize) -> Pane {
    Pane { focusable: false, size_request: Some(XY { x: w, y: h }) }
}

fn screen() -> XY {
    XY { x: 80, y: 24 }
}

fn laid_out_plan(mux: &mut Mux) -> Vec<RenderCmd> {
    mux.layout(screen());
    mux.render_plan(screen())
}

fn pane_rect(cmds: &Vec<RenderCmd>, id: Id) -> (XY, XY) {
    for c in cmds.iter() {
        if let RenderCmd::Pane { id: pid, pos, size, .. } = c {
            if *pid == id {
                return (*pos, *size);
            }
        }
    }
    panic!("pane missing from the render plan");
}

fn pane_count(cmds: &Vec<RenderCmd>) -> usize {
    let mut n = 0;
    for c in cmds.iter() {
        if let RenderCmd::Pane { .. } = c {
            n += 1;
        }
    }
    n
}

fn complex_mux() -> (Mux, [Id; 6]) {
    let mut mux = Mux::new();
    let left1 = mux
        .add_right_of(text_area(), mux.root().build().unwrap())
        .expect("left 1 failed");
    let right1 = mux.add_right_of(text_area(), left1).expect("right 1 failed");
    let right3 = mux.add_below(text_area(), right1).expect("right 3 failed");
    let right2 = mux.add_right_of(text_area(), right1).expect("right 2 failed");
    let left2 = mux.add_below(text_area(), left1).expect("left 2 failed");
    let left3 = mux.add_below(text_area(), left1).expect("left 3 failed");
    (mux, [left1, right1, right3, right2, left2, left3])
}

#[test]
fn end2end_complex() {
    let (mut mux, ids) = complex_mux();
    let cmds = laid_out_plan(&mut mux);
    assert_eq!(pane_count(&cmds), 6);
    let mut total = 0;
    for id in ids.iter() {
        let (_, size) = pane_rect(&cmds, *id);
        total += size.x * size.y;
    }
    assert!(total <= 80 * 24);
}

#[test]
fn end2end_complex_focus() {
    let (mut mux, ids) = complex_mux();
    let right2 = ids[3];
    mux.set_focus(right2);
    assert_eq!(mux.focus(), right2);
    let cmds = laid_out_plan(&mut mux);
    for c in cmds.iter() {
        if let RenderCmd::Pane { id, focused, .. } = c {
            assert_eq!(*focused, *id == right2);
        }
    }
}

#[test]
fn end2end_complex_remove() {
    let (mut mux, ids) = complex_mux();
    let right3 = ids[2];
    mux.remove_id(right3).expect("remove failed");
    let cmds = laid_out_plan(&mut mux);
    assert_eq!(pane_count(&cmds), 5);
}

#[test]
fn end2end_complex_resize() {
    let (mut mux, ids) = complex_mux();
    let right1 = ids[1];
    mux.set_focus(right1);
    mux.layout(screen());
    mux.resize(Dir::Down);
    mux.layout(screen());
    mux.resize(Dir::Right);
    mux.layout(screen());
    mux.move_focus(Dir::Left);
    mux.move_focus(Dir::Down);
    mux.resize(Dir::Up);
    mux.layout(screen());
    mux.resize(Dir::Left);
    let cmds = laid_out_plan(&mut mux);
    assert_eq!(pane_count(&cmds), 6);
}

#[test]
fn end2end_complex_switch() {
    let (mut mux, ids) = complex_mux();
    let right1 = ids[1];
    let left3 = ids[5];
    let cmds = laid_out_plan(&mut mux);
    let (r1_before, _) = pane_rect(&cmds, right1);
    let (l3_before, _) = pane_rect(&cmds, left3);
    mux.switch_views(right1, left3).expect("switch failed");
    let cmds = laid_out_plan(&mut mux);
    let (r1_after, _) = pane_rect(&cmds, right1);
    let (l3_after, _) = pane_rect(&cmds, left3);
    assert_eq!(r1_after, l3_before);
    assert_eq!(l3_after, r1_before);
}

#[test]
fn end2end_down_focus() {
    let mut mux = Mux::new();
    let upper = mux
        .add_right_of(text_area(), mux.root().build().unwrap())
        .expect("upper failed");
    let _lower = mux.add_below(text_area(), upper).expect("lower failed");
    let third = mux.add_below(text_area(), upper).expect("1st failed");
    mux.set_focus(upper);
    mux.move_focus(Dir::Down);
    assert_eq!(mux.focus(), third);
    mux.move_focus(Dir::Down);
    assert_eq!(mux.focus(), _lower);
    mux.move_focus(Dir::Down);
    assert_eq!(mux.focus(), _lower);
}

#[test]
fn end2end_horizontal() {
    let mut mux = Mux::new();
    let center = mux
        .add_right_of(text_view(), mux.root().build().unwrap())
        .expect("Center failed");
    let right = mux.add_right_of(text_view(), center).expect("Right failed");
    let left = mux.add_left_of(text_view(), center).expect("Left failed");
    let cmds = laid_out_plan(&mut mux);
    let (l_pos, l_size) = pane_rect(&cmds, left);
    let (c_pos, c_size) = pane_rect(&cmds, center);
    let (r_pos, r_size) = pane_rect(&cmds, right);
    assert_eq!(l_pos, XY { x: 0, y: 0 });
    assert_eq!(l_size, XY { x: 20, y: 24 });
    assert_eq!(c_pos, XY { x: 20, y: 0 });
    assert_eq!(c_size, XY { x: 20, y: 24 });
    assert_eq!(r_pos, XY { x: 40, y: 0 });
    assert_eq!(r_size, XY { x: 40, y: 24 });
}

#[test]
fn end2end_horizontal_fixed_size() {
    let mut mux = Mux::new();
    let root_pane = mux
        .add_right_of(text_view(), mux.root().build().unwrap())
        .expect("Center failed");
    let fixed_pane = mux.add_right_of(fixed(42, 11), root_pane).expect("Fixed failed");
    let cmds = laid_out_plan(&mut mux);
    let (r_pos, r_size) = pane_rect(&cmds, root_pane);
    let (f_pos, f_size) = pane_rect(&cmds, fixed_pane);
    assert_eq!(r_pos, XY { x: 0, y: 0 });
    assert_eq!(r_size, XY { x: 40, y: 24 });
    assert_eq!(f_pos, XY { x: 40, y: 0 });
    assert_eq!(f_size, XY { x: 40, y: 11 });
}

#[test]
fn end2end_horizontal_remove() {
    let mut mux = Mux::new();
    let center = mux
        .add_right_of(text_view(), mux.root().build().unwrap())
        .expect("Center failed");
    let left = mux.add_left_of(text_view(), center).expect("Left failed");
    let right = mux.add_right_of(text_view(), center).expect("Right failed");
    mux.remove_id(center).expect("remove failed");
    let cmds = laid_out_plan(&mut mux);
    assert_eq!(pane_count(&cmds), 2);
    let (l_pos, l_size) = pane_rect(&cmds, left);
    let (r_pos, r_size) = pane_rect(&cmds, right);
    assert_eq!(l_pos, XY { x: 0, y: 0 });
    assert_eq!(l_size, XY { x: 40, y: 24 });
    assert_eq!(r_pos, XY { x: 40, y: 0 });
    assert_eq!(r_size, XY { x: 40, y: 24 });
}

#[test]
fn end2end_down_resize() {
    let mut mux = Mux::new();
    let left = mux
        .add_right_of(text_area(), mux.root().build().unwrap())
        .expect("left failed");
    let center = mux.add_right_of(text_area(), left).expect("Center failed");
    let _right = mux.add_right_of(text_area(), center).expect("Right failed");
    mux.set_focus(left);
    mux.layout(screen());
    mux.resize(Dir::Left);
    mux.layout(screen());
    mux.resize(Dir::Left);
    mux.layout(screen());
    mux.resize(Dir::Right);
    let cmds = laid_out_plan(&mut mux);
    let (_, l_size) = pane_rect(&cmds, left);
    assert_eq!(l_size.x, 39);
}

#[test]
fn end2end_horizontal_switch() {
    let mut mux = Mux::new();
    let right = mux
        .add_right_of(text_view(), mux.root().build().unwrap())
        .expect("right failed");
    let left = mux.add_right_of(text_view(), right).expect("Left failed");
    mux.switch_views(right, left).expect("switch failed");
    let cmds = laid_out_plan(&mut mux);
    let (l_pos, _) = pane_rect(&cmds, left);
    let (r_pos, _) = pane_rect(&cmds, right);
    assert_eq!(l_pos.x, 0);
    assert_eq!(r_pos.x, 40);
}

#[test]
fn end2end_left_focus() {
    let mut mux = Mux::new();
    let left = mux
        .add_right_of(text_area(), mux.root().build().unwrap())
        .expect("left failed");
    let right = mux.add_right_of(text_area(), left).expect("right failed");
    let third = mux.add_right_of(text_area(), left).expect("1st failed");
    mux.set_focus(right);
    mux.move_focus(Dir::Left);
    assert_eq!(mux.focus(), third);
    mux.move_focus(Dir::Left);
    assert_eq!(mux.focus(), left);
    mux.move_focus(Dir::Left);
    assert_eq!(mux.focus(), left);
}

#[test]
fn end2end_right_focus() {
    let mut mux = Mux::new();
    let left = mux
        .add_right_of(text_area(), mux.root().build().unwrap())
        .expect("left failed");
    let right = mux.add_right_of(text_area(), left).expect("right failed");
    let third = mux.add_right_of(text_area(), left).expect("1st failed");
    mux.set_focus(left);
    mux.move_focus(Dir::Right);
    assert_eq!(mux.focus(), third);
    mux.move_focus(Dir::Right);
    assert_eq!(mux.focus(), right);
    mux.move_focus(Dir::Right);
    assert_eq!(mux.focus(), right);
}

#[test]
fn end2end_smoke() {
    let mut mux = Mux::new();
    let hello = mux
        .add_right_of(text_view(), mux.root().build().unwrap())
        .expect("hello failed");
    let constraint = XY { x: 42, y: 11 };
    mux.layout(constraint);
    let cmds = mux.render_plan(constraint);
    assert_eq!(pane_count(&cmds), 1);
    let (pos, size) = pane_rect(&cmds, hello);
    assert_eq!(pos, XY { x: 0, y: 0 });
    assert_eq!(size, XY { x: 42, y: 11 });
}

#[test]
fn end2end_up_focus() {
    let mut mux = Mux::new();
    let upper = mux
        .add_right_of(text_area(), mux.root().build().unwrap())
        .expect("upper failed");
    let lower = mux.add_below(text_area(), upper).expect("lower failed");
    let third = mux.add_below(text_area(), upper).expect("1st failed");
    mux.set_focus(lower);
    mux.move_focus(Dir::Up);
    assert_eq!(mux.focus(), third);
    mux.move_focus(Dir::Up);
    assert_eq!(mux.focus(), upper);
    mux.move_focus(Dir::Up);
    assert_eq!(mux.focus(), upper);
}

#[test]
fn end2end_zoom() {
    let mut mux = Mux::new();
    let center = mux
        .add_right_of(text_view(), mux.root().build().unwrap())
        .expect("Center failed");
    let _down = mux.add_below(text_view(), center).expect("Down failed");
    let tall = mux.add_above(text_view(), center).expect("Up failed");
    mux.set_focus(tall);
    assert!(mux.zoom_focus());
    let cmds = laid_out_plan(&mut mux);
    assert_eq!(pane_count(&cmds), 1);
    let (pos, size) = pane_rect(&cmds, tall);
    assert_eq!(pos, XY { x: 0, y: 0 });
    assert_eq!(size, screen());
}

#[test]
fn end2end_vertical() {
    let mut mux = Mux::new();
    let center = mux
        .add_right_of(text_view(), mux.root().build().unwrap())
        .expect("Center failed");
    let down = mux.add_below(text_view(), center).expect("Down failed");
    let up = mux.add_above(text_view(), center).expect("Up failed");
    let cmds = laid_out_plan(&mut mux);
    let (u_pos, u_size) = pane_rect(&cmds, up);
    let (c_pos, c_size) = pane_rect(&cmds, center);
    let (d_pos, d_size) = pane_rect(&cmds, down);
    assert_eq!(u_pos, XY { x: 0, y: 0 });
    assert_eq!(u_size, XY { x: 80, y: 6 });
    assert_eq!(c_pos, XY { x: 0, y: 6 });
    assert_eq!(c_size, XY { x: 80, y: 6 });
    assert_eq!(d_pos, XY { x: 0, y: 12 });
    assert_eq!(d_size, XY { x: 80, y: 12 });
}

#[test]
fn end2end_vertical_fixed_size() {
    let mut mux = Mux::new();
    let root_pane = mux
        .add_right_of(text_view(), mux.root().build().unwrap())
        .expect("Root failed");
    let fixed_pane = mux.add_below(fixed(42, 11), root_pane).expect("Fixed failed");
    let cmds = laid_out_plan(&mut mux);
    let (r_pos, r_size) = pane_rect(&cmds, root_pane);
    let (f_pos, f_size) = pane_rect(&cmds, fixed_pane);
    assert_eq!(r_pos, XY { x: 0, y: 0 });
    assert_eq!(r_size, XY { x: 80, y: 12 });
    assert_eq!(f_pos, XY { x: 0, y: 12 });
    assert_eq!(f_size, XY { x: 42, y: 11 });
}

#[test]
fn end2end_vertical_remove() {
    let mut mux = Mux::new();
    let center = mux
        .add_right_of(text_view(), mux.root().build().unwrap())
        .expect("Center failed");
    let up = mux.add_above(text_view(), center).expect("Upper failed");
    let down = mux.add_below(text_view(), center).expect("Lower failed");
    mux.remove_id(center).expect("remove failed");
    let cmds = laid_out_plan(&mut mux);
    assert_eq!(pane_count(&cmds), 2);
    let (u_pos, u_size) = pane_rect(&cmds, up);
    let (d_pos, d_size) = pane_rect(&cmds, down);
    assert_eq!(u_pos, XY { x: 0, y: 0 });
    assert_eq!(u_size, XY { x: 80, y: 12 });
    assert_eq!(d_pos, XY { x: 0, y: 12 });
    assert_eq!(d_size, XY { x: 80, y: 12 });
}

#[test]
fn end2end_vertical_resize() {
    let mut mux = Mux::new();
    let up = mux
        .add_right_of(text_area(), mux.root().build().unwrap())
        .expect("Up failed");
    let center = mux.add_below(text_area(), up).expect("Center failed");
    let _down = mux.add_below(text_area(), center).expect("Down failed");
    mux.set_focus(up);
    mux.layout(screen());
    mux.resize(Dir::Up);
    mux.layout(screen());
    mux.resize(Dir::Up);
    mux.layout(screen());
    mux.resize(Dir::Down);
    let cmds = laid_out_plan(&mut mux);
    let (_, u_size) = pane_rect(&cmds, up);
    assert_eq!(u_size.y, 11);
}

#[test]
fn end2end_switch_views() {
    let mut mux = Mux::new();
    let up = mux
        .add_right_of(text_view(), mux.root().build().unwrap())
        .expect("Up failed");
    let down = mux.add_above(text_view(), up).expect("Left failed");
    mux.switch_views(up, down).expect("switch failed");
    let cmds = laid_out_plan(&mut mux);
    let (u_pos, _) = pane_rect(&cmds, up);
    let (d_pos, _) = pane_rect(&cmds, down);
    assert_eq!(u_pos.y, 0);
    assert_eq!(d_pos.y, 12);
}

#[test]
fn end2end_up_down_focus_history() {
    let mut mux = Mux::new();
    let up = mux
        .add_right_of(text_area(), mux.root().build().unwrap())
        .expect("Up failed");
    let down_left = mux.add_below(text_area(), up).expect("Left failed");
    let down_right = mux.add_right_of(text_area(), down_left).expect("Right Failed");
    assert_eq!(mux.focus(), down_right);
    mux.move_focus(Dir::Up);
    assert_eq!(mux.focus(), up);
    mux.move_focus(Dir::Down);
    // The history carries the focus back to where the upward move began,
    // not to the first pane of the lower half.
    assert_eq!(mux.focus(), down_right);
}

#[test]
fn end2end_left_right_focus_history() {
    let mut mux = Mux::new();
    let up = mux
        .add_right_of(text_area(), mux.root().build().unwrap())
        .expect("Up failed");
    let up_right = mux.add_right_of(text_area(), up).expect("Left failed");
    let down_right = mux.add_below(text_area(), up_right).expect("Right Failed");
    assert_eq!(mux.focus(), down_right);
    mux.move_focus(Dir::Left);
    assert_eq!(mux.focus(), up);
    mux.move_focus(Dir::Right);
    assert_eq!(mux.focus(), down_right);
}
