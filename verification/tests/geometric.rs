//! Directional focus movement across regular and irregular pane grids.

use mux::Dir;
use mux::Mux;
use mux::Pane;

fn pane() -> Pane {
    Pane { focusable: true, size_request: None }
}

#[test]
fn test_line_vertical() {
    // Vertical test
    println!("Vertical Test");
    let mut test_mux = Mux::new();
    let node1 = test_mux
        .add_right_of(pane(), test_mux.root().build().unwrap())
        .expect("first failed");
    let node2 = test_mux.add_below(pane(), node1).unwrap();
    let node3 = test_mux.add_below(pane(), node2).unwrap();

    assert_eq!(node3, test_mux.focus());
    test_mux.move_focus(Dir::Up);
    assert_eq!(node2, test_mux.focus());
    test_mux.move_focus(Dir::Down);
    assert_eq!(node3, test_mux.focus());
    let consumed = test_mux.move_focus(Dir::Left);
    assert!(!consumed);
}

#[test]
fn test_triangle() {
    let mut mux = Mux::new();
    let node1 = mux
        .add_right_of(pane(), mux.root().build().unwrap())
        .expect("first failed");
    let node2 = mux.add_right_of(pane(), node1).unwrap();
    let node3 = mux.add_below(pane(), node2).unwrap();

    assert_eq!(mux.focus(), node3);
    mux.move_focus(Dir::Up);
    assert_eq!(mux.focus(), node2);
    if mux.move_focus(Dir::Left) {
        assert_eq!(mux.focus(), node1);
    } else {
        println!("Not to be ignored Event ignored, Focus was at: {}", mux.focus());
        assert!(false);
    }
}

#[test]
fn test_diagonal() {
    let mut mux = Mux::new();
    let node1 = mux
        .add_right_of(pane(), mux.root().build().unwrap())
        .expect("first failed");
    let node2 = mux.add_right_of(pane(), node1).unwrap();
    let _ = mux.add_below(pane(), node2).unwrap();
    let upper_right_corner = mux.add_right_of(pane(), node2).unwrap();
    let bottom_left_corner = mux.add_below(pane(), node1).unwrap();
    let bottom_left_middle = mux.add_right_of(pane(), bottom_left_corner).unwrap();

    println!("Moving left...");
    mux.move_focus(Dir::Left);
    assert_eq!(mux.focus(), bottom_left_corner);
    println!("Moving right...");
    mux.move_focus(Dir::Right);
    assert_eq!(mux.focus(), bottom_left_middle);
    println!("Moving up...");
    mux.move_focus(Dir::Up);
    assert_eq!(mux.focus(), node1);
    println!("Moving right...");
    mux.move_focus(Dir::Right);
    assert_eq!(mux.focus(), node2);
    println!("Moving right...");
    mux.move_focus(Dir::Right);
    assert_eq!(mux.focus(), upper_right_corner);
}

#[test]
fn test_quadratic() {
    // Quadratic test
    let mut mux = Mux::new();
    let top_left_corner = mux
        .add_right_of(pane(), mux.root().build().unwrap())
        .expect("top left corner failed");

    let top_right_mid = mux.add_right_of(pane(), top_left_corner).unwrap();
    let bottom_right_mid = mux.add_below(pane(), top_right_mid).unwrap();
    let bottom_right_corner = mux.add_right_of(pane(), bottom_right_mid).unwrap();
    let bottom_left_corner = mux.add_below(pane(), top_left_corner).unwrap();
    let top_left_mid = mux.add_right_of(pane(), top_left_corner).unwrap();
    let bottom_left_mid = mux.add_right_of(pane(), bottom_left_corner).unwrap();
    let top_right_corner = mux.add_right_of(pane(), top_right_mid).unwrap();

    println!("Moving left...");
    mux.move_focus(Dir::Left);
    println!("Moving left...");
    mux.move_focus(Dir::Left);
    assert_eq!(mux.focus(), top_left_mid);
    println!("Moving left...");
    mux.move_focus(Dir::Left);
    assert_eq!(mux.focus(), top_left_corner);
    println!("Moving down");
    mux.move_focus(Dir::Down);
    assert_eq!(mux.focus(), bottom_left_corner);
    println!("Moving right...");
    mux.move_focus(Dir::Right);
    assert_eq!(mux.focus(), bottom_left_mid);
    println!("Moving right...");
    mux.move_focus(Dir::Right);
    assert_eq!(mux.focus(), bottom_right_mid);
    println!("Moving right...");
    mux.move_focus(Dir::Right);
    assert_eq!(mux.focus(), bottom_right_corner);
    println!("Moving up...");
    mux.move_focus(Dir::Up);
    assert_eq!(mux.focus(), top_right_corner);

    println!("Circle completed");
}
