//! Tree mutation: removal, switching, zooming and deep nesting.

use mux::Dir;
use mux::Mux;
use mux::Pane;

fn dummy() -> Pane {
    Pane { focusable: false, size_request: None }
}

fn print_tree(mux: &Mux) {
    println!("Current node count: {}", mux.nodes.len());
}

#[test]
fn test_remove() {
    // General Remove test
    let mut test_mux = Mux::new();
    let root = test_mux.root;
    let node1 = test_mux.add_below(dummy(), root).unwrap();
    let node2 = test_mux.add_below(dummy(), node1).unwrap();
    let node3 = test_mux.add_below(dummy(), node2).unwrap();

    print_tree(&test_mux);
    test_mux.remove_id(node3).unwrap();
    print_tree(&test_mux);
    match test_mux.remove_id(node3) {
        Ok(_) => {
            print_tree(&test_mux);
            println!("Delete should have removed: {}", node3);
            assert!(false);
        },
        Err(_) => {},
    }
}

#[test]
fn test_switch() {
    let mut mux = Mux::new();
    let root = mux.root;
    let node1 = mux.add_right_of(dummy(), root).unwrap();
    let node2 = mux.add_right_of(dummy(), node1).unwrap();
    let node3 = mux.add_left_of(dummy(), node2).unwrap();

    mux.switch_views(node1, node3).unwrap();
}

#[test]
fn test_zoom() {
    let mut mux = Mux::new();
    let root = mux.root;
    let node1 = mux.add_right_of(dummy(), root).unwrap();
    let node2 = mux.add_right_of(dummy(), node1).unwrap();
    let _node3 = mux.add_left_of(dummy(), node2).unwrap();

    let consumed = mux.zoom_focus();
    if !consumed {
        assert!(false);
    }
    assert!(mux.zoomed);
}

#[test]
fn test_nesting() {
    println!("Nesting Test");

    let mut mux = Mux::new();

    let mut nodes = Vec::new();

    for _ in 0..10 {
        print_tree(&mux);
        let anchor = if let Some(x) = nodes.last() {
            *x
        } else {
            mux.root
        };
        match mux.add_right_of(dummy(), anchor) {
            Ok(node) => {
                nodes.push(node);
            },
            Err(_) => {
                assert!(false);
            },
        }
        match mux.add_right_of(dummy(), *nodes.last().unwrap()) {
            Ok(node) => {
                nodes.push(node);
            },
            Err(_) => {
                assert!(false);
            },
        }
    }

    for node in nodes.iter() {
        mux.set_focus(*node);
        direction_test(&mut mux);
    }
}

fn direction_test(mux: &mut Mux) {
    // A shotgun approach to catch any unforeseen focus move that would
    // leave the engine in an uncertain state.
    mux.move_focus(Dir::Up);
    mux.move_focus(Dir::Left);
    mux.move_focus(Dir::Down);
    mux.move_focus(Dir::Right);
    mux.move_focus(Dir::Up);
    mux.move_focus(Dir::Left);
    mux.move_focus(Dir::Left);
    mux.move_focus(Dir::Down);
    mux.move_focus(Dir::Right);
    mux.move_focus(Dir::Up);
    mux.move_focus(Dir::Left);
}

#[test]
fn left_to_right() {
    let mut mux = Mux::new();
    let root = mux.root;
    let node1 = mux.add_left_of(dummy(), root).unwrap();
    let node2 = mux.add_left_of(dummy(), node1).unwrap();
    assert!(mux.switch_views(node1, node2).is_ok());
}

#[test]
fn right_to_left() {
    let mut mux = Mux::new();
    let root = mux.root;
    let node1 = mux.add_right_of(dummy(), root).unwrap();
    let node2 = mux.add_left_of(dummy(), node1).unwrap();
    assert!(mux.switch_views(node2, node1).is_ok());
}
