//! The maze itself: its cells, the topology interface, the generator and the solver.

use crate::grid::Grid;
use crate::tree::lemma_link_extends;
use vstd::prelude::*;

verus! {

/// The position of cell `(x, y)` in a row-major grid of the given width.
pub open spec fn index_of(x: int, y: int, width: int) -> int {
    y * width + x
}

/// Row-major index of the cell at column `x`, row `y`.
pub fn cell_index(x: usize, y: usize, width: usize) -> (idx: usize)
    requires
        index_of(x as int, y as int, width as int) <= usize::MAX,
    ensures
        idx == index_of(x as int, y as int, width as int),
{
    assert(y * width >= 0) by (nonlinear_arith);
    y * width + x
}

/// Column and row of the cell with the given row-major index.
pub fn cell_coords(idx: usize, width: usize) -> (xy: (usize, usize))
    requires
        width > 0,
    ensures
        xy.0 == idx as int % width as int,
        xy.1 == idx as int / width as int,
{
    (idx % width, idx / width)
}

/// In a grid of `width` by `height` cells, the cell at `(x, y)` has an index
/// below the number of cells, and its index gives `x` and `y` back.
pub proof fn lemma_cell_position(x: int, y: int, width: int, height: int)
    requires
        0 <= x < width,
        0 <= y < height,
    ensures
        0 <= index_of(x, y, width) < width * height,
        index_of(x, y, width) % width == x,
        index_of(x, y, width) / width == y,
{
    assert(0 <= y * width && y * width + width <= height * width && height * width == width
        * height) by (nonlinear_arith)
        requires
            0 <= y < height,
            0 < width,
    ;
    vstd::arithmetic::div_mod::lemma_fundamental_div_mod_converse(
        index_of(x, y, width),
        width,
        y,
        x,
    );
}

/// The same, of every cell of the grid at once.
pub proof fn lemma_cells_in_grid(width: int, height: int)
    ensures
        forall|x: int, y: int|
            0 <= x < width && 0 <= y < height ==> 0 <= #[trigger] index_of(x, y, width) < width
                * height && index_of(x, y, width) % width == x && index_of(x, y, width) / width
                == y,
{
    assert forall|x: int, y: int| 0 <= x < width && 0 <= y < height implies 0 <= #[trigger] index_of(
        x,
        y,
        width,
    ) < width * height && index_of(x, y, width) % width == x && index_of(x, y, width) / width
        == y by {
        lemma_cell_position(x, y, width, height);
    }
}

/// The last cell of the grid lies in the last column of the last row.
pub proof fn lemma_last_cell(width: int, height: int)
    requires
        width >= 1,
        height >= 1,
    ensures
        width * height - 1 == index_of(width - 1, height - 1, width),
        (width * height - 1) % width == width - 1,
        (width * height - 1) / width == height - 1,
        0int % width == 0,
        0int / width == 0,
        width * height >= 1,
{
    assert(width * height - 1 == (height - 1) * width + (width - 1) && width * height >= 1)
        by (nonlinear_arith)
        requires
            width >= 1,
            height >= 1,
    ;
    lemma_cell_position(width - 1, height - 1, width, height);
    lemma_cell_position(0, 0, width, height);
    assert(index_of(0, 0, width) == 0) by (nonlinear_arith);
}

/// The column and row of a cell add up to less than the number of cells.
pub proof fn lemma_coordinate_sum(x: int, y: int, width: int, height: int)
    by (nonlinear_arith)
    requires
        0 <= x < width,
        0 <= y < height,
    ensures
        x + y < width * height,
{
}

/// Every index below `width * height` is the index of its own column and row,
/// which lie inside the grid.
pub proof fn lemma_cell_of_index(c: int, width: int, height: int)
    requires
        0 < width,
        0 <= c < width * height,
    ensures
        0 <= c % width < width,
        0 <= c / width < height,
        index_of(c % width, c / width, width) == c,
{
    vstd::arithmetic::div_mod::lemma_fundamental_div_mod(c, width);
    let q = c / width;
    assert(width * q == q * width) by (nonlinear_arith);
    assert(0 <= q < height) by (nonlinear_arith)
        requires
            0 < width,
            0 <= c < width * height,
            c == q * width + c % width,
            0 <= c % width < width,
    ;
}

/// A cell of the maze: one neighbour slot and one wall flag per direction.
#[derive(Clone)]
pub struct MazeCell {
    pub neighbors: Vec<Option<usize>>,
    pub walls: Vec<bool>,
}

impl MazeCell {
    /// A cell with `num_neighbors` slots, all without a neighbour and all walled.
    pub fn new(num_neighbors: usize) -> (cell: MazeCell)
        ensures
            cell.neighbors@ == Seq::new(num_neighbors as nat, |i: int| None::<usize>),
            cell.walls@ == Seq::new(num_neighbors as nat, |i: int| true),
    {
        let mut neighbors: Vec<Option<usize>> = Vec::new();
        let mut walls: Vec<bool> = Vec::new();
        let mut i: usize = 0;
        while i < num_neighbors
            invariant
                i <= num_neighbors,
                neighbors@ == Seq::new(i as nat, |i: int| None::<usize>),
                walls@ == Seq::new(i as nat, |i: int| true),
            decreases num_neighbors - i,
        {
            neighbors.push(None);
            walls.push(true);
            i += 1;
        }
        MazeCell { neighbors, walls }
    }
}

/// The cell that a step arrives at, if the step stays inside a grid of
/// `width` by `height` cells.
pub open spec fn arrival(stepped: Option<(int, int)>, width: int, height: int) -> Option<usize> {
    match stepped {
        Some((nx, ny)) => if 0 <= nx < width && 0 <= ny < height {
            Some(index_of(nx, ny, width) as usize)
        } else {
            None
        },
        None => None,
    }
}

/// The neighbour that a topology gives cell `c` on `slot` in a grid of
/// `width` by `height` cells: the cell one step away, unless that step
/// leaves the grid.
pub open spec fn neighbor_at<S: Shape>(width: int, height: int, c: int, slot: int) -> Option<
    usize,
> {
    arrival(S::step(c % width, c / width, slot), width, height)
}

/// All the slots of cell `c`.
pub open spec fn neighbors_at<S: Shape>(width: int, height: int, c: int) -> Seq<Option<usize>> {
    Seq::new(S::slots(), |i: int| neighbor_at::<S>(width, height, c, i))
}

/// The neighbour table of the whole grid.
pub open spec fn lattice<S: Shape>(width: int, height: int) -> Seq<Seq<Option<usize>>> {
    Seq::new((width * height) as nat, |c: int| neighbors_at::<S>(width, height, c))
}

/// While a topology fills the cells in index order from a table of
/// neighbours: the first `done` cells hold their row of the table, every cell
/// has all its slots, and no wall has changed.
pub open spec fn filled_to(
    cells: Seq<MazeCell>,
    before: Seq<MazeCell>,
    table: Seq<Seq<Option<usize>>>,
    done: int,
) -> bool {
    &&& cells.len() == before.len()
    &&& cells.len() == table.len()
    &&& forall|c: int|
        0 <= c < cells.len() ==> (#[trigger] cells[c]).walls@ == before[c].walls@
            && cells[c].neighbors@.len() == table[c].len()
    &&& forall|c: int|
        0 <= c < done && c < cells.len() ==> (#[trigger] cells[c]).neighbors@ == table[c]
}

/// A topology: how many slots a cell has, and which cell lies on each.
pub trait Shape: Sized {
    /// The number of slots of every cell.
    spec fn slots() -> nat;

    /// The column and row one step away from `(x, y)` on `slot`, whether or
    /// not they lie inside a grid; `None` where a cell of this kind has no
    /// such slot.
    spec fn step(x: int, y: int, slot: int) -> Option<(int, int)>;

    /// Every step can be taken back: the cell reached has a slot that leads
    /// to where the step began.
    proof fn step_back(x: int, y: int, slot: int) -> (back: int)
        requires
            0 <= slot < Self::slots(),
            Self::step(x, y, slot) is Some,
        ensures
            0 <= back < Self::slots(),
            Self::step(Self::step(x, y, slot).unwrap().0, Self::step(x, y, slot).unwrap().1, back)
                == Some((x, y)),
    ;

    /// A step leaves the cell, and two slots never lead to the same place.
    proof fn step_apart(x: int, y: int, i: int, j: int)
        requires
            0 <= i < Self::slots(),
            0 <= j < Self::slots(),
            Self::step(x, y, i) is Some,
        ensures
            Self::step(x, y, i) != Some((x, y)),
            i != j ==> Self::step(x, y, i) != Self::step(x, y, j),
    ;

    /// Slot `slot` of cell `c` is a gate of a grid of `width` by `height`
    /// cells: the place in the outer wall where the maze is entered, at the
    /// first cell, or left, at the last. A picture of the maze leaves the
    /// wall on a gate out.
    spec fn gate(width: int, height: int, c: int, slot: int) -> bool;

    /// A gate leads out of the grid: no neighbour lies behind it.
    proof fn gate_leads_out(width: int, height: int, c: int, slot: int)
        requires
            width >= 1,
            height >= 1,
            Self::gate(width, height, c, slot),
        ensures
            0 <= c < width * height,
            0 <= slot < Self::slots(),
            arrival(Self::step(c % width, c / width, slot), width, height) is None,
    ;

    /// The number of slots of every cell.
    fn num_neighbors() -> (k: usize)
        ensures
            k == Self::slots(),
    ;

    /// Whether slot `slot` of cell `idx` is a gate.
    fn is_gate(width: usize, height: usize, idx: usize, slot: usize) -> (gate: bool)
        requires
            width >= 1,
            height >= 1,
            width * height <= usize::MAX,
        ensures
            gate == Self::gate(width as int, height as int, idx as int, slot as int),
    ;

    /// Writes into every cell the neighbours that this topology gives it.
    fn init_neighbors(width: usize, height: usize, cells: &mut [MazeCell])
        requires
            width * height == old(cells)@.len(),
            forall|c: int|
                0 <= c < old(cells)@.len() ==> (#[trigger] old(cells)@[c]).neighbors@.len()
                    == Self::slots(),
        ensures
            final(cells)@.len() == old(cells)@.len(),
            forall|c: int|
                0 <= c < old(cells)@.len() ==> (#[trigger] final(cells)@[c]).walls@ == old(cells)@[c].walls@
                    && final(cells)@[c].neighbors@.len() == Self::slots(),
            forall|c: int, i: int|
                0 <= c < old(cells)@.len() && 0 <= i < Self::slots() ==> #[trigger] final(cells)@[c].neighbors@[i] == arrival(
                    Self::step(c % (width as int), c / (width as int), i),
                    width as int,
                    height as int,
                ),
    ;
}

/// `count` marks, none of them set.
pub(crate) fn unmarked(count: usize) -> (marks: Vec<bool>)
    ensures
        marks@ == Seq::new(count as nat, |i: int| false),
{
    let mut marks: Vec<bool> = Vec::new();
    while marks.len() < count
        invariant
            marks@.len() <= count,
            marks@ == Seq::new(marks@.len(), |i: int| false),
        decreases count - marks.len(),
    {
        marks.push(false);
    }
    marks
}

/// The graph that a sequence of cells stands for.
pub open spec fn grid_of(cells: Seq<MazeCell>) -> Grid {
    Grid {
        neighbors: Seq::new(cells.len(), |c: int| cells[c].neighbors@),
        walls: Seq::new(cells.len(), |c: int| cells[c].walls@),
    }
}

/// A maze of `width` by `height` cells of one topology.
pub struct GenericMaze<S: Shape> {
    pub width: usize,
    pub height: usize,
    pub cells: Vec<MazeCell>,
    pub _shape: std::marker::PhantomData<S>,
}

impl<S: Shape> View for GenericMaze<S> {
    type V = Grid;

    open spec fn view(&self) -> Grid {
        grid_of(self.cells@)
    }
}

impl<S: Shape> GenericMaze<S> {
    /// The maze is a grid of its topology: it has `width * height` cells, at
    /// least one, each with all its slots, and the neighbours are those that
    /// the topology gives.
    pub open spec fn wf(&self) -> bool {
        &&& self.width >= 1
        &&& self.height >= 1
        &&& self@.neighbors == lattice::<S>(self.width as int, self.height as int)
        &&& forall|c: int| 0 <= c < self@.walls.len() ==> (#[trigger] self@.walls[c]).len() == S::slots()
    }

    /// A maze with every wall standing.
    pub fn new(width: usize, height: usize) -> (maze: Self)
        requires
            width >= 1,
            height >= 1,
            width * height <= usize::MAX,
        ensures
            maze.wf(),
            maze.width == width,
            maze.height == height,
            maze@.all_closed(),
            maze@.shaped(),
            maze@.mutual(),
            maze@.simple(),
    {
        let num_cells = width * height;
        let slots = S::num_neighbors();
        let mut cells: Vec<MazeCell> = Vec::new();
        let mut made: usize = 0;
        while made < num_cells
            invariant
                made <= num_cells,
                cells@.len() == made,
                slots == S::slots(),
                forall|c: int|
                    0 <= c < made ==> (#[trigger] cells@[c]).neighbors@.len() == slots
                        && cells@[c].walls@ == Seq::new(slots as nat, |i: int| true),
            decreases num_cells - made,
        {
            cells.push(MazeCell::new(slots));
            made += 1;
        }
        let ghost walled = cells@;
        S::init_neighbors(width, height, cells.as_mut_slice());
        let maze = GenericMaze { width, height, cells, _shape: std::marker::PhantomData };
        proof {
            let table = lattice::<S>(width as int, height as int);
            assert forall|c: int| 0 <= c < table.len() implies #[trigger] maze@.neighbors[c]
                == table[c] by {
                assert(maze.cells@[c].neighbors@.len() == S::slots());
                assert forall|i: int| 0 <= i < S::slots() implies maze.cells@[c].neighbors@[i]
                    == #[trigger] table[c][i] by {}
                assert(maze.cells@[c].neighbors@ =~= table[c]);
            }
            assert(maze@.neighbors =~= table);
            assert forall|c: int| 0 <= c < maze@.walls.len() implies (#[trigger] maze@.walls[c])
                == Seq::new(slots as nat, |i: int| true) by {
                assert(maze.cells@[c].walls@ == walled[c].walls@);
            }
            maze.lemma_wf_graph();
        }
        maze
    }

    /// Row-major index of the cell at column `x`, row `y`.
    pub fn cell_index(&self, x: usize, y: usize) -> (idx: usize)
        requires
            index_of(x as int, y as int, self.width as int) <= usize::MAX,
        ensures
            idx == index_of(x as int, y as int, self.width as int),
    {
        cell_index(x, y, self.width)
    }

    /// Column and row of the cell with the given index.
    pub fn cell_coords(&self, idx: usize) -> (xy: (usize, usize))
        requires
            self.width > 0,
        ensures
            xy.0 == idx as int % self.width as int,
            xy.1 == idx as int / self.width as int,
    {
        cell_coords(idx, self.width)
    }

    /// Whether slot `slot` of cell `idx` is a gate of this maze.
    pub fn is_gate(&self, idx: usize, slot: usize) -> (gate: bool)
        requires
            self.wf(),
        ensures
            gate == S::gate(self.width as int, self.height as int, idx as int, slot as int),
    {
        assert(self@.size() == self.cells.len());
        S::is_gate(self.width, self.height, idx, slot)
    }

    /// The cell at `(x, y)` links the cell one step away on `slot`, where
    /// that lies inside the grid, to whatever it is linked to itself.
    pub proof fn lemma_step_links(&self, x: int, y: int, slot: int)
        requires
            self.wf(),
            0 <= x < self.width,
            0 <= y < self.height,
            0 <= slot < S::slots(),
            arrival(S::step(x, y, slot), self.width as int, self.height as int) is Some,
            self@.linked(0, index_of(x, y, self.width as int) as usize),
        ensures
            self@.linked(
                0,
                arrival(S::step(x, y, slot), self.width as int, self.height as int).unwrap(),
            ),
    {
        let w = self.width as int;
        let h = self.height as int;
        let g = self@;
        self.lemma_wf_graph();
        assert(g.size() == self.cells.len());
        lemma_cell_position(x, y, w, h);
        let a = index_of(x, y, w) as usize;
        let b = arrival(S::step(x, y, slot), w, h).unwrap();
        assert(g.neighbors[a as int][slot] == arrival(S::step(x, y, slot), w, h));
        assert(g.slot_leads(a, slot, b));
        lemma_link_extends(g, a, b);
    }

    /// A well-formed maze is a sound graph: every neighbour is a cell, whoever
    /// names a neighbour is named by it in turn, no cell names itself, and no
    /// cell names another twice.
    pub proof fn lemma_wf_graph(&self)
        requires
            self.wf(),
        ensures
            self@.shaped(),
            self@.mutual(),
            self@.simple(),
    {
        let w = self.width as int;
        let h = self.height as int;
        let g = self@;
        assert(g.size() == self.cells.len());
        assert(g.size() == w * h);
        assert(w * h >= 1) by (nonlinear_arith)
            requires
                w >= 1,
                h >= 1,
        ;
        lemma_cells_in_grid(w, h);
        assert forall|c: int, i: int|
            0 <= c < g.size() && 0 <= i < g.neighbors[c].len() implies match #[trigger] g.neighbors[c][i] {
            Some(n) => n < g.size(),
            None => true,
        } by {
            lemma_cell_of_index(c, w, h);
        }
        assert forall|a: usize, b: usize| a < g.size() && #[trigger] g.adjacent(a, b) implies g.adjacent(
            b,
            a,
        ) by {
            let i = choose|i: int| g.slot_leads(a, i, b);
            lemma_cell_of_index(a as int, w, h);
            let (x, y) = (a as int % w, a as int / w);
            let back = S::step_back(x, y, i);
            let (nx, ny) = S::step(x, y, i).unwrap();
            lemma_cell_position(nx, ny, w, h);
            assert(g.neighbors[a as int][i] == arrival(S::step(x, y, i), w, h));
            assert(0 <= nx < w && 0 <= ny < h);
            assert(b as int == index_of(nx, ny, w));
            assert(g.neighbors[b as int][back] == arrival(S::step(nx, ny, back), w, h));
            assert(g.neighbors[b as int][back] == Some(a));
            assert(g.slot_leads(b, back, a));
        }
        assert forall|c: int, i: int, j: int|
            0 <= c < g.size() && 0 <= i < g.neighbors[c].len() && 0 <= j < g.neighbors[c].len() && (
            #[trigger] g.neighbors[c][i]) is Some implies {
            &&& g.neighbors[c][i] != Some(c as usize)
            &&& i != j ==> g.neighbors[c][i] != #[trigger] g.neighbors[c][j]
        } by {
            lemma_cell_of_index(c, w, h);
            S::step_apart(c % w, c / w, i, j);
            assert(g.neighbors[c][i] == arrival(S::step(c % w, c / w, i), w, h));
            assert(g.neighbors[c][j] == arrival(S::step(c % w, c / w, j), w, h));
            let (nx, ny) = S::step(c % w, c / w, i).unwrap();
            lemma_cell_position(nx, ny, w, h);
            if i != j && g.neighbors[c][j] is Some {
                let (mx, my) = S::step(c % w, c / w, j).unwrap();
                lemma_cell_position(mx, my, w, h);
            }
        }
    }
}

} // verus!
