//! Square cells: four slots, north, south, east, west.

use crate::genericmaze::{
    arrival, cell_index, filled_to, GenericMaze, index_of, lemma_cell_of_index,
    lemma_cells_in_grid, lemma_last_cell, MazeCell, Shape,
};
use crate::tree::lemma_link_extends;
use vstd::prelude::*;

verus! {

/// The square grid.
pub struct RectShape;

/// One step from `(x, y)`: north, south, east or west.
pub open spec fn rect_step(x: int, y: int, slot: int) -> Option<(int, int)> {
    if slot == 0 {
        Some((x, y - 1))
    } else if slot == 1 {
        Some((x, y + 1))
    } else if slot == 2 {
        Some((x + 1, y))
    } else if slot == 3 {
        Some((x - 1, y))
    } else {
        None
    }
}

/// The neighbours of every cell of a square grid.
pub open spec fn rect_table(width: int, height: int) -> Seq<Seq<Option<usize>>> {
    Seq::new(
        (width * height) as nat,
        |c: int| Seq::new(4, |i: int| arrival(rect_step(c % width, c / width, i), width, height)),
    )
}

/// The gates of a square grid: the north and west sides of the first cell,
/// and the south side of the last.
pub open spec fn rect_gate(width: int, height: int, c: int, slot: int) -> bool {
    (c == 0 && (slot == 0 || slot == 3)) || (c == width * height - 1 && slot == 1)
}

impl Shape for RectShape {
    open spec fn slots() -> nat {
        4
    }

    open spec fn step(x: int, y: int, slot: int) -> Option<(int, int)> {
        rect_step(x, y, slot)
    }

    proof fn step_back(x: int, y: int, slot: int) -> (back: int) {
        if slot == 0 {
            1
        } else if slot == 1 {
            0
        } else if slot == 2 {
            3
        } else {
            2
        }
    }

    proof fn step_apart(x: int, y: int, i: int, j: int) {
    }

    open spec fn gate(width: int, height: int, c: int, slot: int) -> bool {
        rect_gate(width, height, c, slot)
    }

    proof fn gate_leads_out(width: int, height: int, c: int, slot: int) {
        lemma_last_cell(width, height);
    }

    fn is_gate(width: usize, height: usize, idx: usize, slot: usize) -> (gate: bool) {
        proof {
            lemma_last_cell(width as int, height as int);
        }
        let last = width * height - 1;
        (idx == 0 && (slot == 0 || slot == 3)) || (idx == last && slot == 1)
    }

    fn num_neighbors() -> (k: usize) {
        4
    }

    fn init_neighbors(width: usize, height: usize, cells: &mut [MazeCell]) {
        let count = cells.len();
        assert(0 * width == 0 && height * width == width * height) by (nonlinear_arith);
        for y in 0..height
            invariant
                width * height == count,
                height * width == count,
                count == cells@.len(),
                filled_to(cells@, old(cells)@, rect_table(width as int, height as int), y * width),
        {
            for x in 0..width
                invariant
                    y < height,
                    width * height == count,
                    count == cells@.len(),
                    filled_to(
                        cells@,
                        old(cells)@,
                        rect_table(width as int, height as int),
                        y * width + x,
                    ),
            {
                proof {
                    lemma_cells_in_grid(width as int, height as int);
                }
                let idx = cell_index(x, y, width);
                // Slots: 0 north, 1 south, 2 east, 3 west.
                let north = if y > 0 {
                    Some(cell_index(x, y - 1, width))
                } else {
                    None
                };
                let south = if y < height - 1 {
                    Some(cell_index(x, y + 1, width))
                } else {
                    None
                };
                let east = if x < width - 1 {
                    Some(cell_index(x + 1, y, width))
                } else {
                    None
                };
                let west = if x > 0 {
                    Some(cell_index(x - 1, y, width))
                } else {
                    None
                };
                cells[idx].neighbors[0] = north;
                cells[idx].neighbors[1] = south;
                cells[idx].neighbors[2] = east;
                cells[idx].neighbors[3] = west;
                assert(cells@[idx as int].neighbors@ =~= rect_table(
                    width as int,
                    height as int,
                )[idx as int]);
            }
            assert((y + 1) * width == y * width + width) by (nonlinear_arith);
        }
    }
}

impl GenericMaze<RectShape> {
    /// Every cell of the first row is linked to the entrance.
    proof fn lemma_first_row_linked(&self, x: int)
        requires
            self.wf(),
            0 <= x < self.width,
        ensures
            self@.linked(0, index_of(x, 0, self.width as int) as usize),
        decreases x,
    {
        self.lemma_wf_graph();
        lemma_link_extends(self@, 0, 0);
        assert(index_of(0, 0, self.width as int) == 0) by (nonlinear_arith);
        if x > 0 {
            self.lemma_first_row_linked(x - 1);
            self.lemma_step_links(x - 1, 0, 2);
        }
    }

    /// Every cell at `(x, y)` is linked to the entrance.
    proof fn lemma_cell_linked(&self, x: int, y: int)
        requires
            self.wf(),
            0 <= x < self.width,
            0 <= y < self.height,
        ensures
            self@.linked(0, index_of(x, y, self.width as int) as usize),
        decreases y,
    {
        if y == 0 {
            self.lemma_first_row_linked(x);
        } else {
            self.lemma_cell_linked(x, y - 1);
            self.lemma_step_links(x, y - 1, 1);
        }
    }

    /// A square grid is in one piece: every cell is linked to the entrance.
    pub proof fn lemma_all_linked(&self)
        requires
            self.wf(),
        ensures
            forall|c: usize| c < self@.size() ==> #[trigger] self@.linked(0, c),
    {
        assert(self@.size() == self.cells.len());
        assert forall|c: usize| c < self@.size() implies #[trigger] self@.linked(0, c) by {
            lemma_cell_of_index(c as int, self.width as int, self.height as int);
            self.lemma_cell_linked(c as int % self.width as int, c as int / self.width as int);
        }
    }
}

} // verus!
