//! Triangular cells: three slots, left, right, and the one above or below.

use crate::genericmaze::{
    arrival, cell_index, filled_to, GenericMaze, index_of, lemma_cell_of_index,
    lemma_cells_in_grid, lemma_coordinate_sum, lemma_last_cell, MazeCell, Shape,
};
use crate::tree::lemma_link_extends;
use vstd::prelude::*;

verus! {

/// The triangular grid: triangles that point up and down in turn.
pub struct TriShape;

/// The triangle at `(x, y)` points up; its neighbours to the left and right,
/// and the one below it, point down.
pub open spec fn points_up(x: int, y: int) -> bool {
    (x + y) % 2 == 0
}

/// One step from `(x, y)`: left, right, or across the horizontal edge, which
/// lies below a triangle that points up and above one that points down.
pub open spec fn tri_step(x: int, y: int, slot: int) -> Option<(int, int)> {
    if slot == 0 {
        Some((x - 1, y))
    } else if slot == 1 {
        Some((x + 1, y))
    } else if slot == 2 {
        if points_up(x, y) {
            Some((x, y + 1))
        } else {
            Some((x, y - 1))
        }
    } else {
        None
    }
}

/// The neighbours of every cell of a triangular grid.
pub open spec fn tri_table(width: int, height: int) -> Seq<Seq<Option<usize>>> {
    Seq::new(
        (width * height) as nat,
        |c: int| Seq::new(3, |i: int| arrival(tri_step(c % width, c / width, i), width, height)),
    )
}

/// The gates of a triangular grid: the left side of the first cell and the
/// right side of the last.
pub open spec fn tri_gate(width: int, height: int, c: int, slot: int) -> bool {
    (c == 0 && slot == 0) || (c == width * height - 1 && slot == 1)
}

impl Shape for TriShape {
    open spec fn slots() -> nat {
        3
    }

    open spec fn step(x: int, y: int, slot: int) -> Option<(int, int)> {
        tri_step(x, y, slot)
    }

    proof fn step_back(x: int, y: int, slot: int) -> (back: int) {
        if slot == 0 {
            1
        } else if slot == 1 {
            0
        } else {
            2
        }
    }

    proof fn step_apart(x: int, y: int, i: int, j: int) {
    }

    open spec fn gate(width: int, height: int, c: int, slot: int) -> bool {
        tri_gate(width, height, c, slot)
    }

    proof fn gate_leads_out(width: int, height: int, c: int, slot: int) {
        lemma_last_cell(width, height);
    }

    fn is_gate(width: usize, height: usize, idx: usize, slot: usize) -> (gate: bool) {
        proof {
            lemma_last_cell(width as int, height as int);
        }
        let last = width * height - 1;
        (idx == 0 && slot == 0) || (idx == last && slot == 1)
    }

    fn num_neighbors() -> (k: usize) {
        3
    }

    fn init_neighbors(width: usize, height: usize, cells: &mut [MazeCell]) {
        let count = cells.len();
        assert(0 * width == 0 && height * width == width * height) by (nonlinear_arith);
        for y in 0..height
            invariant
                width * height == count,
                height * width == count,
                count == cells@.len(),
                filled_to(cells@, old(cells)@, tri_table(width as int, height as int), y * width),
        {
            for x in 0..width
                invariant
                    y < height,
                    width * height == count,
                    count == cells@.len(),
                    filled_to(
                        cells@,
                        old(cells)@,
                        tri_table(width as int, height as int),
                        y * width + x,
                    ),
            {
                proof {
                    lemma_cells_in_grid(width as int, height as int);
                    lemma_coordinate_sum(x as int, y as int, width as int, height as int);
                }
                let idx = cell_index(x, y, width);
                // Slots: 0 left, 1 right, 2 below an upward triangle, above a
                // downward one.
                let is_up = (x + y) % 2 == 0;
                let left = if x > 0 {
                    Some(cell_index(x - 1, y, width))
                } else {
                    None
                };
                let right = if x < width - 1 {
                    Some(cell_index(x + 1, y, width))
                } else {
                    None
                };
                let third = if is_up {
                    if y < height - 1 {
                        Some(cell_index(x, y + 1, width))
                    } else {
                        None
                    }
                } else {
                    if y > 0 {
                        Some(cell_index(x, y - 1, width))
                    } else {
                        None
                    }
                };
                cells[idx].neighbors[0] = left;
                cells[idx].neighbors[1] = right;
                cells[idx].neighbors[2] = third;
                assert(cells@[idx as int].neighbors@ =~= tri_table(
                    width as int,
                    height as int,
                )[idx as int]);
            }
            assert((y + 1) * width == y * width + width) by (nonlinear_arith);
        }
    }
}

impl GenericMaze<TriShape> {
    /// Within a row, what one cell is linked to, every cell is.
    proof fn lemma_row_spreads(&self, from: int, x: int, y: int)
        requires
            self.wf(),
            0 <= from < self.width,
            0 <= x < self.width,
            0 <= y < self.height,
            self@.linked(0, index_of(from, y, self.width as int) as usize),
        ensures
            self@.linked(0, index_of(x, y, self.width as int) as usize),
        decreases
                if x >= from {
                    x - from
                } else {
                    from - x
                },
    {
        if x > from {
            self.lemma_row_spreads(from, x - 1, y);
            self.lemma_step_links(x - 1, y, 1);
        } else if x < from {
            self.lemma_row_spreads(from, x + 1, y);
            self.lemma_step_links(x + 1, y, 0);
        }
    }

    /// Every cell at `(x, y)` is linked to the entrance, unless the grid is
    /// a single column of three triangles or more.
    proof fn lemma_cell_linked(&self, x: int, y: int)
        requires
            self.wf(),
            self.width >= 2 || self.height <= 2,
            0 <= x < self.width,
            0 <= y < self.height,
        ensures
            self@.linked(0, index_of(x, y, self.width as int) as usize),
        decreases y,
    {
        if y == 0 {
            self.lemma_wf_graph();
            lemma_link_extends(self@, 0, 0);
            assert(index_of(0, 0, self.width as int) == 0) by (nonlinear_arith);
            self.lemma_row_spreads(0, x, 0);
        } else {
            // The triangle of the row above that points up.
            let up = (y - 1) % 2;
            self.lemma_cell_linked(up, y - 1);
            self.lemma_step_links(up, y - 1, 2);
            self.lemma_row_spreads(up, x, y);
        }
    }

    /// A triangular grid is in one piece, every cell linked to the entrance,
    /// where it has two columns or more, or no more than two rows. In a
    /// single column the second and the third triangle share no edge.
    pub proof fn lemma_all_linked(&self)
        requires
            self.wf(),
            self.width >= 2 || self.height <= 2,
        ensures
            forall|c: usize| c < self@.size() ==> #[trigger] self@.linked(0, c),
    {
        assert(self@.size() == self.cells.len());
        assert forall|c: usize| c < self@.size() implies #[trigger] self@.linked(0, c) by {
            lemma_cell_of_index(c as int, self.width as int, self.height as int);
            self.lemma_cell_linked(c as int % self.width as int, c as int / self.width as int);
        }
    }
}

} // verus!
