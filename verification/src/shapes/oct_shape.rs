//! Octagons and squares: eight slots, of which a square uses the first four.

use crate::genericmaze::{
    arrival, cell_index, filled_to, GenericMaze, index_of, lemma_cell_of_index,
    lemma_cells_in_grid, lemma_coordinate_sum, lemma_last_cell, MazeCell, Shape,
};
use crate::tree::lemma_link_extends;
use vstd::prelude::*;

verus! {

/// The truncated square tiling: octagons and the small squares between them,
/// laid out as a checkerboard.
pub struct OctShape;

/// The cell at `(x, y)` is an octagon.
pub open spec fn octagon_at(x: int, y: int) -> bool {
    (x + y) % 2 == 0
}

/// One step from `(x, y)`: north, south, east, west, to a cell of the other
/// kind; from an octagon also along the four diagonals, to an octagon.
pub open spec fn oct_step(x: int, y: int, slot: int) -> Option<(int, int)> {
    if slot == 0 {
        Some((x, y - 1))
    } else if slot == 1 {
        Some((x, y + 1))
    } else if slot == 2 {
        Some((x + 1, y))
    } else if slot == 3 {
        Some((x - 1, y))
    } else if !octagon_at(x, y) {
        None
    } else if slot == 4 {
        Some((x + 1, y - 1))
    } else if slot == 5 {
        Some((x + 1, y + 1))
    } else if slot == 6 {
        Some((x - 1, y - 1))
    } else if slot == 7 {
        Some((x - 1, y + 1))
    } else {
        None
    }
}

/// The neighbours of every cell of a grid of octagons and squares.
pub open spec fn oct_table(width: int, height: int) -> Seq<Seq<Option<usize>>> {
    Seq::new(
        (width * height) as nat,
        |c: int| Seq::new(8, |i: int| arrival(oct_step(c % width, c / width, i), width, height)),
    )
}

impl OctShape {
    /// Whether the cell at `(x, y)` is an octagon: the cells form a
    /// checkerboard with an octagon in the first corner.
    pub fn is_octagon(x: usize, y: usize) -> (octagon: bool)
        requires
            x + y <= usize::MAX,
        ensures
            octagon == octagon_at(x as int, y as int),
    {
        (x + y) % 2 == 0
    }
}

/// The gates of a grid of octagons and squares: the north-west side of the
/// first cell, an octagon, and of the last cell the south-east side where it
/// is an octagon, the south side where it is a square.
pub open spec fn oct_gate(width: int, height: int, c: int, slot: int) -> bool {
    (c == 0 && slot == 6) || (c == width * height - 1 && slot == (if octagon_at(width - 1, height - 1) {
        5int
    } else {
        1int
    }))
}

impl Shape for OctShape {
    open spec fn slots() -> nat {
        8
    }

    open spec fn step(x: int, y: int, slot: int) -> Option<(int, int)> {
        oct_step(x, y, slot)
    }

    proof fn step_back(x: int, y: int, slot: int) -> (back: int) {
        if slot == 0 {
            1
        } else if slot == 1 {
            0
        } else if slot == 2 {
            3
        } else if slot == 3 {
            2
        } else if slot == 4 {
            7
        } else if slot == 5 {
            6
        } else if slot == 6 {
            5
        } else {
            4
        }
    }

    proof fn step_apart(x: int, y: int, i: int, j: int) {
    }

    open spec fn gate(width: int, height: int, c: int, slot: int) -> bool {
        oct_gate(width, height, c, slot)
    }

    proof fn gate_leads_out(width: int, height: int, c: int, slot: int) {
        lemma_last_cell(width, height);
    }

    fn is_gate(width: usize, height: usize, idx: usize, slot: usize) -> (gate: bool) {
        proof {
            lemma_coordinate_sum(width - 1, height - 1, width as int, height as int);
            lemma_last_cell(width as int, height as int);
        }
        let last = width * height - 1;
        let exit_slot: usize = if Self::is_octagon(width - 1, height - 1) {
            5
        } else {
            1
        };
        (idx == 0 && slot == 6) || (idx == last && slot == exit_slot)
    }

    fn num_neighbors() -> (k: usize) {
        8
    }

    #[verifier::rlimit(30)]
    fn init_neighbors(width: usize, height: usize, cells: &mut [MazeCell]) {
        let count = cells.len();
        assert(0 * width == 0 && height * width == width * height) by (nonlinear_arith);
        for y in 0..height
            invariant
                width * height == count,
                height * width == count,
                count == cells@.len(),
                filled_to(cells@, old(cells)@, oct_table(width as int, height as int), y * width),
        {
            for x in 0..width
                invariant
                    y < height,
                    width * height == count,
                    count == cells@.len(),
                    filled_to(
                        cells@,
                        old(cells)@,
                        oct_table(width as int, height as int),
                        y * width + x,
                    ),
            {
                proof {
                    lemma_cells_in_grid(width as int, height as int);
                    lemma_coordinate_sum(x as int, y as int, width as int, height as int);
                }
                let idx = cell_index(x, y, width);
                // Slots: 0 north, 1 south, 2 east, 3 west; an octagon also has
                // 4 north-east, 5 south-east, 6 north-west, 7 south-west.
                let octagon = Self::is_octagon(x, y);
                let north = if y > 0 {
                    Some(cell_index(x, y - 1, width))
                } else {
                    None
                };
                let south = if y < height - 1 {
                    Some(cell_index(x, y + 1, width))
                } else {
                    None
                };
                let east = if x < width - 1 {
                    Some(cell_index(x + 1, y, width))
                } else {
                    None
                };
                let west = if x > 0 {
                    Some(cell_index(x - 1, y, width))
                } else {
                    None
                };
                let north_east = if octagon && x < width - 1 && y > 0 {
                    Some(cell_index(x + 1, y - 1, width))
                } else {
                    None
                };
                let south_east = if octagon && x < width - 1 && y < height - 1 {
                    Some(cell_index(x + 1, y + 1, width))
                } else {
                    None
                };
                let north_west = if octagon && x > 0 && y > 0 {
                    Some(cell_index(x - 1, y - 1, width))
                } else {
                    None
                };
                let south_west = if octagon && x > 0 && y < height - 1 {
                    Some(cell_index(x - 1, y + 1, width))
                } else {
                    None
                };
                cells[idx].neighbors[0] = north;
                cells[idx].neighbors[1] = south;
                cells[idx].neighbors[2] = east;
                cells[idx].neighbors[3] = west;
                cells[idx].neighbors[4] = north_east;
                cells[idx].neighbors[5] = south_east;
                cells[idx].neighbors[6] = north_west;
                cells[idx].neighbors[7] = south_west;
                assert(cells@[idx as int].neighbors@ =~= oct_table(
                    width as int,
                    height as int,
                )[idx as int]);
            }
            assert((y + 1) * width == y * width + width) by (nonlinear_arith);
        }
    }
}

impl GenericMaze<OctShape> {
    /// Every cell of the first row is linked to the entrance.
    proof fn lemma_first_row_linked(&self, x: int)
        requires
            self.wf(),
            0 <= x < self.width,
        ensures
            self@.linked(0, index_of(x, 0, self.width as int) as usize),
        decreases x,
    {
        self.lemma_wf_graph();
        lemma_link_extends(self@, 0, 0);
        assert(index_of(0, 0, self.width as int) == 0) by (nonlinear_arith);
        if x > 0 {
            self.lemma_first_row_linked(x - 1);
            self.lemma_step_links(x - 1, 0, 2);
        }
    }

    /// Every cell at `(x, y)` is linked to the entrance.
    proof fn lemma_cell_linked(&self, x: int, y: int)
        requires
            self.wf(),
            0 <= x < self.width,
            0 <= y < self.height,
        ensures
            self@.linked(0, index_of(x, y, self.width as int) as usize),
        decreases y,
    {
        if y == 0 {
            self.lemma_first_row_linked(x);
        } else {
            self.lemma_cell_linked(x, y - 1);
            self.lemma_step_links(x, y - 1, 1);
        }
    }

    /// A grid of octagons and squares is in one piece: every cell is linked to
    /// the entrance.
    pub proof fn lemma_all_linked(&self)
        requires
            self.wf(),
        ensures
            forall|c: usize| c < self@.size() ==> #[trigger] self@.linked(0, c),
    {
        assert(self@.size() == self.cells.len());
        assert forall|c: usize| c < self@.size() implies #[trigger] self@.linked(0, c) by {
            lemma_cell_of_index(c as int, self.width as int, self.height as int);
            self.lemma_cell_linked(c as int % self.width as int, c as int / self.width as int);
        }
    }
}

} // verus!
