//! The path builder: finding pane ids by walking directions from the root.

use mux::Mux;
use mux::Pane;

fn pane() -> Pane {
    Pane { focusable: true, size_request: None }
}

#[test]
fn path_up() {
    let mut mux = Mux::new();
    let node1 = mux.add_right_of(pane(), mux.root().build().unwrap()).unwrap();
    mux.add_below(pane(), node1).unwrap();
    let upper_pane = mux.root().up().build();
    assert!(upper_pane.is_some());
    assert_eq!(node1, upper_pane.unwrap());
}

#[test]
fn path_down() {
    let mut mux = Mux::new();
    let node1 = mux.add_right_of(pane(), mux.root().build().unwrap()).unwrap();
    let node2 = mux.add_below(pane(), node1).unwrap();
    let lower_pane = mux.root().down().build();
    assert!(lower_pane.is_some());
    assert_eq!(node2, lower_pane.unwrap());
}

#[test]
fn path_left() {
    let mut mux = Mux::new();
    let node1 = mux.add_right_of(pane(), mux.root().build().unwrap()).unwrap();
    mux.add_right_of(pane(), node1).unwrap();
    let left_pane = mux.root().left().build();
    assert!(left_pane.is_some());
    assert_eq!(node1, left_pane.unwrap());
}

#[test]
fn path_right() {
    let mut mux = Mux::new();
    let node1 = mux.add_right_of(pane(), mux.root().build().unwrap()).unwrap();
    let node2 = mux.add_right_of(pane(), node1).unwrap();
    let right_pane = mux.root().right().build();
    assert!(right_pane.is_some());
    assert_eq!(node2, right_pane.unwrap());
}

#[test]
fn path_invalid() {
    let mut mux = Mux::new();
    let node1 = mux.add_right_of(pane(), mux.root().build().unwrap()).unwrap();
    let _ = mux.add_right_of(pane(), node1).unwrap();
    let root_pane = mux.root().build();
    assert!(root_pane.is_none());
}
