use maze::genericmaze::{GenericMaze, Shape};
use maze::shapes::{HexShape, OctShape, RectShape, TriShape};
use maze::solver::reversed;

fn open_between<S: Shape>(maze: &GenericMaze<S>, a: usize, b: usize) -> bool {
    let cell = &maze.cells[a];
    (0..cell.neighbors.len()).any(|i| cell.neighbors[i] == Some(b) && !cell.walls[i])
}

fn open_slots<S: Shape>(maze: &GenericMaze<S>) -> usize {
    maze.cells.iter().map(|c| c.walls.iter().filter(|w| !**w).count()).sum()
}

/// The cells reached from cell 0, through passages only or through any slot.
fn flood<S: Shape>(maze: &GenericMaze<S>, through_walls: bool) -> Vec<bool> {
    let mut seen = vec![false; maze.cells.len()];
    let mut work = vec![0usize];
    seen[0] = true;
    while let Some(c) = work.pop() {
        for i in 0..maze.cells[c].neighbors.len() {
            if let Some(n) = maze.cells[c].neighbors[i] {
                if (through_walls || !maze.cells[c].walls[i]) && !seen[n] {
                    seen[n] = true;
                    work.push(n);
                }
            }
        }
    }
    seen
}

fn assert_perfect<S: Shape>(maze: &GenericMaze<S>) {
    let linked = flood(maze, true);
    let reached = flood(maze, false);
    assert_eq!(linked, reached);
    let cells = reached.iter().filter(|s| **s).count();
    // Each passage takes down two walls, one on either side.
    assert_eq!(open_slots(maze), 2 * (cells - 1));
    for a in 0..maze.cells.len() {
        for i in 0..maze.cells[a].neighbors.len() {
            if !maze.cells[a].walls[i] {
                let b = maze.cells[a].neighbors[i].expect("a fallen wall leads to a cell");
                assert!(open_between(maze, b, a));
            }
        }
    }
}

fn assert_solution<S: Shape>(maze: &GenericMaze<S>, path: &[usize]) {
    assert_eq!(path[0], 0);
    assert_eq!(*path.last().unwrap(), maze.cells.len() - 1);
    for pair in path.windows(2) {
        assert!(open_between(maze, pair[0], pair[1]));
    }
    for (i, a) in path.iter().enumerate() {
        for b in &path[i + 1..] {
            assert_ne!(a, b);
        }
    }
}

#[test]
fn single_cell_maze() {
    let mut maze = GenericMaze::<RectShape>::new(1, 1);
    maze.generate();
    assert_eq!(open_slots(&maze), 0);
    assert_eq!(maze.cells[0].walls, vec![true; 4]);
    assert_eq!(maze.solve(), vec![0]);
}

#[test]
fn two_cell_maze() {
    for _ in 0..20 {
        let mut maze = GenericMaze::<RectShape>::new(2, 1);
        maze.generate();
        // East of cell 0 and west of cell 1, and nothing else.
        assert_eq!(maze.cells[0].walls, vec![true, true, false, true]);
        assert_eq!(maze.cells[1].walls, vec![true, true, true, false]);
        assert_eq!(maze.solve(), vec![0, 1]);
    }
}

#[test]
fn five_by_five_solution_length() {
    for _ in 0..50 {
        let mut maze = GenericMaze::<RectShape>::new(5, 5);
        maze.generate();
        let path = maze.solve();
        let edges = path.len() - 1;
        assert!(edges >= 8);
        assert!(edges <= 24);
        assert_solution(&maze, &path);
    }
}

#[test]
fn generate_keeps_the_grid() {
    let fresh = GenericMaze::<HexShape>::new(5, 4);
    let mut maze = GenericMaze::<HexShape>::new(5, 4);
    maze.generate();
    assert_eq!(maze.width, 5);
    assert_eq!(maze.height, 4);
    assert_eq!(maze.cells.len(), 20);
    for c in 0..20 {
        assert_eq!(maze.cells[c].neighbors, fresh.cells[c].neighbors);
        assert_eq!(maze.cells[c].walls.len(), 6);
    }
}

#[test]
fn generated_mazes_are_spanning_trees() {
    for _ in 0..10 {
        for (w, h) in [(1, 1), (1, 2), (2, 2), (7, 3), (6, 6), (1, 9), (9, 1)] {
            let mut rect = GenericMaze::<RectShape>::new(w, h);
            rect.generate();
            assert_perfect(&rect);
            let mut tri = GenericMaze::<TriShape>::new(w, h);
            tri.generate();
            assert_perfect(&tri);
            let mut hex = GenericMaze::<HexShape>::new(w, h);
            hex.generate();
            assert_perfect(&hex);
            let mut oct = GenericMaze::<OctShape>::new(w, h);
            oct.generate();
            assert_perfect(&oct);
        }
    }
}

#[test]
fn connected_grids_are_carved_whole() {
    let mut rect = GenericMaze::<RectShape>::new(8, 6);
    rect.generate();
    assert!(flood(&rect, false).iter().all(|s| *s));
    assert_eq!(open_slots(&rect), 2 * 47);
    let mut hex = GenericMaze::<HexShape>::new(8, 6);
    hex.generate();
    assert!(flood(&hex, false).iter().all(|s| *s));
    assert_eq!(open_slots(&hex), 2 * 47);
    let mut oct = GenericMaze::<OctShape>::new(8, 6);
    oct.generate();
    assert!(flood(&oct, false).iter().all(|s| *s));
    assert_eq!(open_slots(&oct), 2 * 47);
    let mut tri = GenericMaze::<TriShape>::new(8, 6);
    tri.generate();
    assert!(flood(&tri, false).iter().all(|s| *s));
    assert_eq!(open_slots(&tri), 2 * 47);
}

#[test]
fn solutions_are_walks_from_entrance_to_exit() {
    for _ in 0..10 {
        let mut rect = GenericMaze::<RectShape>::new(9, 7);
        rect.generate();
        assert_solution(&rect, &rect.solve());
        let mut tri = GenericMaze::<TriShape>::new(9, 7);
        tri.generate();
        assert_solution(&tri, &tri.solve());
        let mut hex = GenericMaze::<HexShape>::new(9, 7);
        hex.generate();
        assert_solution(&hex, &hex.solve());
        let mut oct = GenericMaze::<OctShape>::new(9, 7);
        oct.generate();
        assert_solution(&oct, &oct.solve());
    }
}

#[test]
fn solve_gives_the_same_path_again() {
    for _ in 0..10 {
        let mut maze = GenericMaze::<OctShape>::new(7, 7);
        maze.generate();
        let first = maze.solve();
        let second = maze.solve();
        let third = maze.solve();
        assert_eq!(first, second);
        assert_eq!(second, third);
    }
}

#[test]
fn solve_finds_a_shortest_path_where_there_are_several() {
    // A 3 by 3 square grid with every wall down: four steps are needed.
    let mut maze = GenericMaze::<RectShape>::new(3, 3);
    for cell in maze.cells.iter_mut() {
        for wall in cell.walls.iter_mut() {
            *wall = false;
        }
    }
    let path = maze.solve();
    assert_eq!(path.len(), 5);
    assert_solution(&maze, &path);
    // Slots are tried in order, south before east.
    assert_eq!(path, vec![0, 3, 6, 7, 8]);
}

fn without_walls<S: Shape>(width: usize, height: usize) -> GenericMaze<S> {
    let mut maze = GenericMaze::<S>::new(width, height);
    for cell in maze.cells.iter_mut() {
        for wall in cell.walls.iter_mut() {
            *wall = false;
        }
    }
    maze
}

#[test]
fn solve_prefers_the_earlier_slot_among_shortest_paths() {
    assert_eq!(without_walls::<RectShape>(4, 3).solve(), vec![0, 4, 8, 9, 10, 11]);
    assert_eq!(without_walls::<TriShape>(4, 3).solve(), vec![0, 1, 2, 6, 7, 11]);
    assert_eq!(without_walls::<HexShape>(3, 3).solve(), vec![0, 3, 4, 8]);
    assert_eq!(without_walls::<HexShape>(4, 4).solve(), vec![0, 4, 8, 9, 14, 15]);
    assert_eq!(without_walls::<OctShape>(3, 3).solve(), vec![0, 4, 8]);
    assert_eq!(without_walls::<OctShape>(4, 3).solve(), vec![0, 5, 10, 11]);
}

#[test]
fn solve_follows_the_only_way() {
    // A 3 by 2 square grid, carved by hand into 0 - 1 - 2 - 5 - 4 - 3.
    let mut maze = GenericMaze::<RectShape>::new(3, 2);
    maze.open_passage(0, 2, 1);
    maze.open_passage(1, 2, 2);
    maze.open_passage(2, 1, 5);
    maze.open_passage(5, 3, 4);
    maze.open_passage(4, 3, 3);
    assert_eq!(maze.solve(), vec![0, 1, 2, 5]);
    assert_perfect(&maze);
}

#[test]
fn solve_without_a_way_returns_the_exit_alone() {
    let maze = GenericMaze::<RectShape>::new(2, 1);
    assert_eq!(maze.solve(), vec![1]);
    let walled = GenericMaze::<HexShape>::new(4, 4);
    assert_eq!(walled.solve(), vec![15]);
}

#[test]
fn unlinked_cells_stay_walled() {
    // One column of triangles: the second and the third share no edge.
    let mut maze = GenericMaze::<TriShape>::new(1, 3);
    assert_eq!(maze.cells[1].neighbors, vec![None, None, Some(0)]);
    assert_eq!(maze.cells[2].neighbors, vec![None, None, None]);
    maze.generate();
    assert_eq!(maze.cells[0].walls, vec![true, true, false]);
    assert_eq!(maze.cells[1].walls, vec![true, true, false]);
    assert_eq!(maze.cells[2].walls, vec![true, true, true]);
    assert_perfect(&maze);
    assert_eq!(maze.solve(), vec![2]);
}

#[test]
fn one_way_passages_are_followed_one_way() {
    let mut maze = GenericMaze::<RectShape>::new(2, 1);
    maze.cells[0].walls[2] = false;
    assert_eq!(maze.solve(), vec![0, 1]);
    let mut back = GenericMaze::<RectShape>::new(2, 1);
    back.cells[1].walls[3] = false;
    assert_eq!(back.solve(), vec![1]);
}

#[test]
fn open_passage_takes_down_both_walls() {
    let mut maze = GenericMaze::<OctShape>::new(3, 3);
    // From the centre to the north-east: slot 4 there, slot 7 back.
    maze.open_passage(4, 4, 2);
    for c in 0..9 {
        for i in 0..8 {
            let down = (c == 4 && i == 4) || (c == 2 && i == 7);
            assert_eq!(maze.cells[c].walls[i], !down);
        }
    }
    // From a square to the octagon below it: slot 1 there, slot 0 back.
    maze.open_passage(1, 1, 4);
    assert!(!maze.cells[1].walls[1]);
    assert!(!maze.cells[4].walls[0]);
    assert_eq!(open_slots(&maze), 4);
}

#[test]
fn open_passage_without_a_way_back_takes_down_one_wall() {
    let mut maze = GenericMaze::<RectShape>::new(2, 1);
    maze.cells[1].neighbors[3] = None;
    maze.open_passage(0, 2, 1);
    assert_eq!(maze.cells[0].walls, vec![true, true, false, true]);
    assert_eq!(maze.cells[1].walls, vec![true; 4]);
}

#[test]
fn unvisited_neighbors_in_slot_order() {
    let maze = GenericMaze::<RectShape>::new(3, 3);
    let mut visited = vec![false; 9];
    assert_eq!(
        maze.unvisited_neighbors(4, &visited),
        vec![(1, 0), (7, 1), (5, 2), (3, 3)]
    );
    visited[7] = true;
    visited[3] = true;
    assert_eq!(maze.unvisited_neighbors(4, &visited), vec![(1, 0), (5, 2)]);
    assert_eq!(maze.unvisited_neighbors(0, &visited), vec![(1, 2)]);
    visited[1] = true;
    assert_eq!(maze.unvisited_neighbors(0, &visited), vec![]);
}

#[test]
fn generate_reaches_every_linked_cell_on_a_carved_grid() {
    let mut maze = GenericMaze::<HexShape>::new(6, 5);
    // Some walls are down already, one of them on one side only.
    maze.open_passage(0, 1, 6);
    maze.open_passage(14, 0, 8);
    maze.cells[29].walls[0] = false;
    maze.generate();
    assert_eq!(flood(&maze, false), flood(&maze, true));
    assert!(flood(&maze, false).iter().all(|s| *s));
    assert!(!maze.cells[0].walls[1]);
    assert!(!maze.cells[14].walls[0]);
    assert!(!maze.cells[29].walls[0]);
}

#[test]
fn generate_twice_only_opens_walls() {
    let mut maze = GenericMaze::<RectShape>::new(4, 4);
    maze.generate();
    let once: Vec<Vec<bool>> = maze.cells.iter().map(|c| c.walls.clone()).collect();
    maze.generate();
    for c in 0..16 {
        for i in 0..4 {
            if maze.cells[c].walls[i] {
                assert!(once[c][i]);
            }
        }
    }
}

#[test]
fn reversed_turns_a_path_round() {
    assert_eq!(reversed(&vec![3, 1, 2]), vec![2, 1, 3]);
    assert_eq!(reversed(&vec![7]), vec![7]);
    assert_eq!(reversed(&Vec::new()), Vec::<usize>::new());
}

#[test]
fn all_shapes_in_both_sizes() {
    for (w, h) in [(5, 5), (75, 75)] {
        let mut rect = GenericMaze::<RectShape>::new(w, h);
        rect.generate();
        assert_solution(&rect, &rect.solve());
        assert_perfect(&rect);
        let mut tri = GenericMaze::<TriShape>::new(w, h);
        tri.generate();
        assert_solution(&tri, &tri.solve());
        assert_perfect(&tri);
        let mut hex = GenericMaze::<HexShape>::new(w, h);
        hex.generate();
        assert_solution(&hex, &hex.solve());
        assert_perfect(&hex);
        let mut oct = GenericMaze::<OctShape>::new(w, h);
        oct.generate();
        assert_solution(&oct, &oct.solve());
        assert_perfect(&oct);
    }
}
