use maze::genericmaze::{GenericMaze, Shape};
use maze::shapes::{HexShape, OctShape, RectShape, TriShape};

fn gates<S: Shape>(width: usize, height: usize) -> Vec<(usize, usize)> {
    let mut found = Vec::new();
    for idx in 0..width * height {
        for slot in 0..S::num_neighbors() {
            if S::is_gate(width, height, idx, slot) {
                found.push((idx, slot));
            }
        }
    }
    found
}

fn assert_gates_lead_out<S: Shape>(width: usize, height: usize) {
    let maze = GenericMaze::<S>::new(width, height);
    let found = gates::<S>(width, height);
    assert!(found.iter().any(|g| g.0 == 0));
    assert!(found.iter().any(|g| g.0 == width * height - 1));
    for (idx, slot) in found {
        assert!(idx == 0 || idx == width * height - 1);
        assert_eq!(maze.cells[idx].neighbors[slot], None);
        assert!(maze.is_gate(idx, slot));
    }
}

#[test]
fn square_gates() {
    assert_eq!(gates::<RectShape>(3, 2), vec![(0, 0), (0, 3), (5, 1)]);
    assert_eq!(gates::<RectShape>(1, 1), vec![(0, 0), (0, 1), (0, 3)]);
}

#[test]
fn triangle_gates() {
    assert_eq!(gates::<TriShape>(3, 2), vec![(0, 0), (5, 1)]);
    assert_eq!(gates::<TriShape>(4, 4), vec![(0, 0), (15, 1)]);
}

#[test]
fn hexagon_gates() {
    assert_eq!(gates::<HexShape>(3, 3), vec![(0, 4), (8, 3)]);
    assert_eq!(gates::<HexShape>(2, 1), vec![(0, 4), (1, 3)]);
}

#[test]
fn octagon_gates() {
    // The last cell of a 3 by 3 grid is an octagon, that of a 2 by 3 grid a square.
    assert_eq!(gates::<OctShape>(3, 3), vec![(0, 6), (8, 5)]);
    assert_eq!(gates::<OctShape>(2, 3), vec![(0, 6), (5, 1)]);
    assert_eq!(gates::<OctShape>(1, 1), vec![(0, 5), (0, 6)]);
}

#[test]
fn gates_lead_out_of_the_grid() {
    for (w, h) in [(1, 1), (1, 3), (2, 1), (2, 2), (3, 4), (5, 5), (4, 7)] {
        assert_gates_lead_out::<RectShape>(w, h);
        assert_gates_lead_out::<TriShape>(w, h);
        assert_gates_lead_out::<HexShape>(w, h);
        assert_gates_lead_out::<OctShape>(w, h);
    }
}

#[test]
fn generate_leaves_gates_walled() {
    let mut maze = GenericMaze::<HexShape>::new(4, 4);
    maze.generate();
    assert!(maze.cells[0].walls[4]);
    assert!(maze.cells[15].walls[3]);
    assert!(maze.is_gate(0, 4));
    assert!(maze.is_gate(15, 3));
    assert!(!maze.is_gate(0, 3));
    assert!(!maze.is_gate(7, 4));
}
