//! The mathematical picture of a maze: a graph whose vertices are the cells.

use crate::order::earlier;
use vstd::prelude::*;

verus! {

/// What a maze holds, as plain sequences: for each cell and slot the
/// neighbour, if any, and whether the wall on that slot stands.
pub struct Grid {
    pub neighbors: Seq<Seq<Option<usize>>>,
    pub walls: Seq<Seq<bool>>,
}

impl Grid {
    /// The number of cells.
    pub open spec fn size(self) -> nat {
        self.neighbors.len()
    }

    /// Slot `i` of cell `a` names cell `b`.
    pub open spec fn slot_leads(self, a: usize, i: int, b: usize) -> bool {
        0 <= i < self.neighbors[a as int].len() && self.neighbors[a as int][i] == Some(b)
    }

    /// Slot `i` of cell `a` names cell `b`, and its wall is down.
    pub open spec fn slot_open(self, a: usize, i: int, b: usize) -> bool {
        self.slot_leads(a, i, b) && !self.walls[a as int][i]
    }

    /// Cell `b` is a neighbour of cell `a`.
    pub open spec fn adjacent(self, a: usize, b: usize) -> bool {
        exists|i: int| self.slot_leads(a, i, b)
    }

    /// One can step from cell `a` into its neighbour `b`: no wall on that slot.
    pub open spec fn passage(self, a: usize, b: usize) -> bool {
        exists|i: int| self.slot_open(a, i, b)
    }

    /// Every cell has as many walls as slots, and every neighbour is a cell.
    pub open spec fn shaped(self) -> bool {
        &&& self.size() >= 1
        &&& self.walls.len() == self.size()
        &&& forall|c: int|
            0 <= c < self.size() ==> (#[trigger] self.walls[c]).len() == self.neighbors[c].len()
        &&& forall|c: int, i: int|
            0 <= c < self.size() && 0 <= i < self.neighbors[c].len() ==> match #[trigger] self.neighbors[c][i] {
                Some(n) => n < self.size(),
                None => true,
            }
    }

    /// Every wall stands.
    pub open spec fn all_closed(self) -> bool {
        forall|c: int, i: int|
            0 <= c < self.walls.len() && 0 <= i < self.walls[c].len() ==> #[trigger] self.walls[c][i]
    }

    /// Whoever names a neighbour is named by it in turn, on some slot.
    pub open spec fn mutual(self) -> bool {
        forall|a: usize, b: usize|
            a < self.size() && #[trigger] self.adjacent(a, b) ==> self.adjacent(b, a)
    }

    /// No cell names itself, and no cell names another on two slots.
    pub open spec fn simple(self) -> bool {
        forall|c: int, i: int, j: int|
            0 <= c < self.size() && 0 <= i < self.neighbors[c].len() && 0 <= j
                < self.neighbors[c].len() && (#[trigger] self.neighbors[c][i]) is Some ==> {
                &&& self.neighbors[c][i] != Some(c as usize)
                &&& i != j ==> self.neighbors[c][i] != #[trigger] self.neighbors[c][j]
            }
    }

    /// A walk: at least one cell, and a passage from each cell to the next.
    pub open spec fn walk(self, p: Seq<usize>) -> bool {
        &&& p.len() >= 1
        &&& forall|k: int| 0 <= k < p.len() ==> (#[trigger] p[k]) < self.size()
        &&& forall|k: int| 0 <= k < p.len() - 1 ==> self.passage(#[trigger] p[k], p[k + 1])
    }

    /// A walk from `a` to `b`.
    pub open spec fn route(self, a: usize, b: usize, p: Seq<usize>) -> bool {
        self.walk(p) && p.first() == a && p.last() == b
    }

    /// Some walk leads from `a` to `b`.
    pub open spec fn connected(self, a: usize, b: usize) -> bool {
        exists|p: Seq<usize>| self.route(a, b, p)
    }

    /// Slot `i` is the first of cell `a` through which one can step into `b`.
    pub open spec fn first_open(self, a: usize, i: int, b: usize) -> bool {
        self.slot_open(a, i, b) && forall|j: int| 0 <= j < i ==> !self.slot_open(a, j, b)
    }

    /// The door from `a` to `b`: the first slot of `a` through which one
    /// can step into `b`.
    pub open spec fn door(self, a: usize, b: usize) -> int {
        choose|i: int| self.first_open(a, i, b)
    }

    /// The doors that a walk takes, one for each step.
    pub open spec fn doors(self, p: Seq<usize>) -> Seq<int> {
        Seq::new((p.len() - 1) as nat, |k: int| self.door(p[k], p[k + 1]))
    }

    /// The last cell, where the maze is left; the first cell, 0, is where it
    /// is entered.
    pub open spec fn exit(self) -> usize {
        (self.size() - 1) as usize
    }

    /// `path` is what the solver owes for this maze. Where the exit can be
    /// reached from the entrance, it is a walk from the one to the other that
    /// visits no cell twice; no walk between them is shorter, and of those
    /// that are as short none comes before it by the doors it takes. Where
    /// the exit cannot be reached, it is the exit alone.
    pub open spec fn solved_by(self, path: Seq<usize>) -> bool {
        if self.connected(0, self.exit()) {
            &&& self.route(0, self.exit(), path)
            &&& path.no_duplicates()
            &&& forall|q: Seq<usize>| #[trigger]
                self.route(0, self.exit(), q) ==> path.len() <= q.len() && (q.len() == path.len()
                    ==> !earlier(self.doors(q), self.doors(path)))
        } else {
            path == seq![self.exit()]
        }
    }

    /// The same grid with the wall on slot `i` of cell `a` taken down.
    pub open spec fn lowered(self, a: usize, i: int) -> Grid {
        Grid {
            neighbors: self.neighbors,
            walls: self.walls.update(a as int, self.walls[a as int].update(i, false)),
        }
    }

    /// The same grid after a passage is carved through slot `i` of cell `a`:
    /// that wall is down, and so is the wall on the first slot of the
    /// neighbour that leads back to `a`, if it has one.
    pub open spec fn carved(self, a: usize, i: int) -> Grid {
        let b = self.neighbors[a as int][i].unwrap();
        let near = self.lowered(a, i);
        match self.neighbors[b as int].index_of_first(Some(a)) {
            Some(j) => near.lowered(b, j),
            None => near,
        }
    }

    /// `later` is this grid with some walls taken down and nothing else changed.
    pub open spec fn opens_to(self, later: Grid) -> bool {
        &&& later.neighbors == self.neighbors
        &&& later.walls.len() == self.walls.len()
        &&& forall|c: int|
            0 <= c < self.walls.len() ==> (#[trigger] later.walls[c]).len() == self.walls[c].len()
        &&& forall|c: int, i: int|
            0 <= c < self.walls.len() && 0 <= i < self.walls[c].len() && #[trigger] later.walls[c][i]
                ==> self.walls[c][i]
    }

    /// `later` is this grid with some walls taken down, each of them on a
    /// slot that leads to a neighbour, and nothing else changed.
    pub open spec fn carves_to(self, later: Grid) -> bool {
        &&& self.opens_to(later)
        &&& forall|c: int, i: int|
            0 <= c < self.walls.len() && 0 <= i < self.walls[c].len() && self.walls[c][i]
                && !#[trigger] later.walls[c][i] ==> self.neighbors[c][i] is Some
    }

    /// The same grid with every wall taken down.
    pub open spec fn opened(self) -> Grid {
        Grid {
            neighbors: self.neighbors,
            walls: Seq::new(
                self.neighbors.len(),
                |c: int| Seq::new(self.neighbors[c].len(), |i: int| false),
            ),
        }
    }

    /// Cell `b` can be reached from cell `a` by going from neighbour to
    /// neighbour, walls or no walls.
    pub open spec fn linked(self, a: usize, b: usize) -> bool {
        self.opened().connected(a, b)
    }

    /// Every passage can be taken in both directions.
    pub open spec fn two_way(self) -> bool {
        forall|a: usize, b: usize|
            a < self.size() && b < self.size() && #[trigger] self.passage(a, b) ==> self.passage(
                b,
                a,
            )
    }

    /// The passages reach from the entrance every cell that the grid links
    /// to it, and no other.
    pub open spec fn spans(self) -> bool {
        forall|c: usize|
            #![trigger self.linked(0, c)]
            #![trigger self.connected(0, c)]
            c < self.size() ==> (self.linked(0, c) <==> self.connected(0, c))
    }

    /// A walk that visits no cell twice.
    pub open spec fn trail(self, p: Seq<usize>) -> bool {
        self.walk(p) && p.no_duplicates()
    }

    /// The passages hold no cycle: between two cells there is at most one
    /// walk that visits no cell twice.
    pub open spec fn acyclic(self) -> bool {
        forall|p: Seq<usize>, q: Seq<usize>|
            #[trigger] self.trail(p) && #[trigger] self.trail(q) && p.first() == q.first()
                && p.last() == q.last() ==> p == q
    }

    /// The cells that the passages reach from the entrance.
    pub open spec fn reach(self) -> Set<usize> {
        Set::new(|c: usize| c < self.size() && self.connected(0, c))
    }

    /// The pairs of cells with a passage from the one to the other, each
    /// pair written with the lower index first.
    pub open spec fn open_pairs(self) -> Set<(usize, usize)> {
        Set::new(|e: (usize, usize)| e.0 < e.1 < self.size() && self.passage(e.0, e.1))
    }

    /// Every passage starts from a cell that the passages reach from the
    /// entrance: what they do not reach is walled in.
    pub open spec fn gathered(self) -> bool {
        forall|a: usize, b: usize|
            a < self.size() && b < self.size() && #[trigger] self.passage(a, b) ==> self.connected(
                0,
                a,
            )
    }

    /// The maze is perfect: its passages go both ways and form a tree that
    /// spans every cell linked to the entrance. They reach all those cells
    /// and join no others, hold no cycle, and are one fewer than the cells
    /// they reach.
    pub open spec fn perfect(self) -> bool {
        &&& self.two_way()
        &&& self.spans()
        &&& self.gathered()
        &&& self.acyclic()
        &&& self.reach().finite()
        &&& self.open_pairs().finite()
        &&& self.open_pairs().len() == self.reach().len() - 1
    }

    /// `rank` orders the cells so that the passages can hold no cycle: a
    /// passage joins cells of different rank, and from no cell do passages
    /// lead to two cells of lower rank.
    pub open spec fn ranked(self, rank: Seq<int>) -> bool {
        &&& rank.len() == self.size()
        &&& forall|a: usize, b: usize|
            a < self.size() && b < self.size() && #[trigger] self.passage(a, b) ==> rank[a as int]
                != rank[b as int]
        &&& forall|a: usize, b: usize, c: usize|
            a < self.size() && b < self.size() && c < self.size() && #[trigger] self.passage(a, b)
                && #[trigger] self.passage(a, c) && rank[b as int] < rank[a as int] && rank[c as int]
                < rank[a as int] ==> b == c
    }
}

} // verus!
