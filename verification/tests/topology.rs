use maze::genericmaze::{cell_coords, cell_index, GenericMaze, MazeCell, Shape};
use maze::shapes::{HexShape, OctShape, RectShape, TriShape};

fn neighbors_of<S: Shape>(maze: &GenericMaze<S>, c: usize) -> Vec<Option<usize>> {
    maze.cells[c].neighbors.clone()
}

fn assert_fresh_and_mutual<S: Shape>(maze: &GenericMaze<S>, slots: usize) {
    assert_eq!(maze.cells.len(), maze.width * maze.height);
    for (c, cell) in maze.cells.iter().enumerate() {
        assert_eq!(cell.neighbors.len(), slots);
        assert_eq!(cell.walls.len(), slots);
        assert!(cell.walls.iter().all(|w| *w));
        for (i, slot) in cell.neighbors.iter().enumerate() {
            if let Some(n) = slot {
                assert!(*n < maze.cells.len());
                assert_ne!(*n, c);
                assert!(maze.cells[*n].neighbors.contains(&Some(c)));
                for (j, other) in cell.neighbors.iter().enumerate() {
                    if i != j {
                        assert_ne!(slot, other);
                    }
                }
            }
        }
    }
}

#[test]
fn cell_index_is_row_major() {
    assert_eq!(cell_index(0, 0, 5), 0);
    assert_eq!(cell_index(3, 2, 5), 13);
    assert_eq!(cell_index(4, 4, 5), 24);
    assert_eq!(cell_index(0, 7, 1), 7);
}

#[test]
fn cell_coords_undo_cell_index() {
    assert_eq!(cell_coords(13, 5), (3, 2));
    assert_eq!(cell_coords(0, 5), (0, 0));
    assert_eq!(cell_coords(24, 5), (4, 4));
    for y in 0..4 {
        for x in 0..7 {
            assert_eq!(cell_coords(cell_index(x, y, 7), 7), (x, y));
        }
    }
}

#[test]
fn maze_methods_use_its_width() {
    let maze = GenericMaze::<RectShape>::new(4, 3);
    assert_eq!(maze.cell_index(3, 2), 11);
    assert_eq!(maze.cell_coords(11), (3, 2));
    assert_eq!(maze.cell_coords(4), (0, 1));
}

#[test]
fn new_cell_has_no_neighbors_and_all_walls() {
    let cell = MazeCell::new(3);
    assert_eq!(cell.neighbors, vec![None, None, None]);
    assert_eq!(cell.walls, vec![true, true, true]);
    let none = MazeCell::new(0);
    assert!(none.neighbors.is_empty());
    assert!(none.walls.is_empty());
}

#[test]
fn slot_counts() {
    assert_eq!(RectShape::num_neighbors(), 4);
    assert_eq!(TriShape::num_neighbors(), 3);
    assert_eq!(HexShape::num_neighbors(), 6);
    assert_eq!(OctShape::num_neighbors(), 8);
}

#[test]
fn square_neighbors() {
    let maze = GenericMaze::<RectShape>::new(3, 3);
    assert_eq!(maze.width, 3);
    assert_eq!(maze.height, 3);
    assert_eq!(neighbors_of(&maze, 0), vec![None, Some(3), Some(1), None]);
    assert_eq!(neighbors_of(&maze, 4), vec![Some(1), Some(7), Some(5), Some(3)]);
    assert_eq!(neighbors_of(&maze, 8), vec![Some(5), None, None, Some(7)]);
    assert_eq!(neighbors_of(&maze, 2), vec![None, Some(5), None, Some(1)]);
}

#[test]
fn triangle_neighbors() {
    let maze = GenericMaze::<TriShape>::new(3, 2);
    // (0, 0) points up: its third slot is the cell below.
    assert_eq!(neighbors_of(&maze, 0), vec![None, Some(1), Some(3)]);
    // (1, 0) points down: its third slot is the cell above, and there is none.
    assert_eq!(neighbors_of(&maze, 1), vec![Some(0), Some(2), None]);
    assert_eq!(neighbors_of(&maze, 2), vec![Some(1), None, Some(5)]);
    assert_eq!(neighbors_of(&maze, 3), vec![None, Some(4), Some(0)]);
    assert_eq!(neighbors_of(&maze, 4), vec![Some(3), Some(5), None]);
    assert_eq!(neighbors_of(&maze, 5), vec![Some(4), None, Some(2)]);
}

#[test]
fn hexagon_neighbors() {
    let maze = GenericMaze::<HexShape>::new(3, 3);
    // (1, 1) lies in an odd column.
    assert_eq!(
        neighbors_of(&maze, 4),
        vec![Some(1), Some(7), Some(5), Some(8), Some(3), Some(6)]
    );
    // (0, 0) and (2, 0) lie in even columns.
    assert_eq!(neighbors_of(&maze, 0), vec![None, Some(3), None, Some(1), None, None]);
    assert_eq!(neighbors_of(&maze, 2), vec![None, Some(5), None, None, None, Some(1)]);
    // (2, 1), even column: the northern diagonals go one row up.
    assert_eq!(
        neighbors_of(&maze, 5),
        vec![Some(2), Some(8), None, None, Some(1), Some(4)]
    );
    // (1, 2), odd column in the last row: no southern neighbours.
    assert_eq!(neighbors_of(&maze, 7), vec![Some(4), None, Some(8), None, Some(6), None]);
}

#[test]
fn octagon_neighbors() {
    let maze = GenericMaze::<OctShape>::new(3, 3);
    // The centre is an octagon with all eight neighbours.
    assert_eq!(
        neighbors_of(&maze, 4),
        vec![Some(1), Some(7), Some(5), Some(3), Some(2), Some(8), Some(0), Some(6)]
    );
    // (1, 0) is a square: only the first four slots are ever used.
    assert_eq!(
        neighbors_of(&maze, 1),
        vec![None, Some(4), Some(2), Some(0), None, None, None, None]
    );
    assert_eq!(
        neighbors_of(&maze, 3),
        vec![Some(0), Some(6), Some(4), None, None, None, None, None]
    );
}

#[test]
fn octagon_checkerboard() {
    assert!(OctShape::is_octagon(0, 0));
    assert!(!OctShape::is_octagon(1, 0));
    assert!(!OctShape::is_octagon(0, 1));
    assert!(OctShape::is_octagon(1, 1));
    assert!(OctShape::is_octagon(2, 2));
    assert!(!OctShape::is_octagon(2, 1));
}

#[test]
fn octagon_corners_are_octagons_cut_down_by_the_border() {
    let maze = GenericMaze::<OctShape>::new(3, 3);
    assert!(OctShape::is_octagon(0, 0));
    assert!(OctShape::is_octagon(2, 2));
    // South, east and south-east of the first corner lie inside the grid.
    assert_eq!(
        neighbors_of(&maze, 0),
        vec![None, Some(3), Some(1), None, None, Some(4), None, None]
    );
    // North, west and north-west of the last corner lie inside the grid.
    assert_eq!(
        neighbors_of(&maze, 8),
        vec![Some(5), None, None, Some(7), None, None, Some(4), None]
    );
    let populated = |c: usize| maze.cells[c].neighbors.iter().filter(|n| n.is_some()).count();
    assert_eq!(populated(0), 3);
    assert_eq!(populated(8), 3);
    assert!(populated(0) < 8 && populated(8) < 8);
}

#[test]
fn fresh_mazes_are_walled_and_mutual() {
    for (w, h) in [(1, 1), (1, 4), (4, 1), (2, 2), (3, 5), (6, 4)] {
        assert_fresh_and_mutual(&GenericMaze::<RectShape>::new(w, h), 4);
        assert_fresh_and_mutual(&GenericMaze::<TriShape>::new(w, h), 3);
        assert_fresh_and_mutual(&GenericMaze::<HexShape>::new(w, h), 6);
        assert_fresh_and_mutual(&GenericMaze::<OctShape>::new(w, h), 8);
    }
}

#[test]
fn single_cell_has_no_neighbors() {
    let maze = GenericMaze::<HexShape>::new(1, 1);
    assert_eq!(maze.cells.len(), 1);
    assert_eq!(neighbors_of(&maze, 0), vec![None; 6]);
    assert_eq!(maze.cells[0].walls, vec![true; 6]);
}

#[test]
fn init_neighbors_overwrites_stale_slots() {
    let mut cells = vec![MazeCell::new(4), MazeCell::new(4)];
    cells[0].neighbors[0] = Some(1);
    cells[1].neighbors[2] = Some(0);
    cells[1].walls[1] = false;
    RectShape::init_neighbors(2, 1, &mut cells);
    assert_eq!(cells[0].neighbors, vec![None, None, Some(1), None]);
    assert_eq!(cells[1].neighbors, vec![None, None, None, Some(0)]);
    assert_eq!(cells[0].walls, vec![true; 4]);
    assert_eq!(cells[1].walls, vec![true, false, true, true]);
}
