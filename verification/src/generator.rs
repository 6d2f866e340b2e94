//! The generator: a randomised depth-first walk that carves a spanning tree.

use crate::genericmaze::{unmarked, GenericMaze, Shape};
use crate::grid::Grid;
use crate::random::random_below;
use crate::carving::{
    carving, lemma_reach_back, lemma_reach_ends, lemma_reach_forward, lemma_reach_starts,
    lemma_tree_ends, lemma_tree_forward, lemma_tree_starts, lemma_two_way_forward, reaching,
};
use crate::tree::lemma_carved;
use rand::rngs::ThreadRng;
use vstd::prelude::*;

verus! {

/// One of `items`, picked at random; `None` where there is none to pick.
pub(crate) fn pick(items: &Vec<(usize, usize)>, rng: &mut ThreadRng) -> (picked: Option<(usize, usize)>)
    ensures
        picked is None <==> items@.len() == 0,
        picked matches Some(item) ==> items@.contains(item),
{
    if items.len() == 0 {
        None
    } else {
        Some(items[random_below(rng, items.len())])
    }
}

/// The neighbours of cell `a` that `seen` does not mark, each with its slot,
/// in slot order.
pub open spec fn unseen_around(g: Grid, a: usize, seen: Seq<bool>, list: Seq<(usize, usize)>) -> bool {
    &&& forall|k: int|
        0 <= k < list.len() ==> g.slot_leads(a, (#[trigger] list[k]).1 as int, list[k].0) && !seen[list[k].0 as int]
    &&& forall|j: int, k: int| 0 <= j < k < list.len() ==> (#[trigger] list[j]).1 < (#[trigger] list[k]).1
    &&& forall|i: int, b: usize|
        #[trigger] g.slot_leads(a, i, b) && !seen[b as int] ==> list.contains((b, i as usize))
}

impl<S: Shape> GenericMaze<S> {
    /// The neighbours of `current` that are not yet visited, each with the
    /// slot that leads to it.
    pub fn unvisited_neighbors(&self, current: usize, visited: &Vec<bool>) -> (unvisited: Vec<(usize, usize)>)
        requires
            self@.shaped(),
            current < self@.size(),
            visited@.len() == self@.size(),
        ensures
            unseen_around(self@, current, visited@, unvisited@),
    {
        let ghost g = self@;
        let mut unvisited: Vec<(usize, usize)> = Vec::new();
        let slots = self.cells[current].neighbors.len();
        let mut edge_idx: usize = 0;
        while edge_idx < slots
            invariant
                g == self@,
                g.shaped(),
                current < g.size(),
                visited@.len() == g.size(),
                slots == g.neighbors[current as int].len(),
                edge_idx <= slots,
                forall|k: int|
                    0 <= k < unvisited@.len() ==> g.slot_leads(current, (#[trigger] unvisited@[k]).1 as int, unvisited@[k].0)
                        && !visited@[unvisited@[k].0 as int] && unvisited@[k].1 < edge_idx,
                forall|j: int, k: int|
                    0 <= j < k < unvisited@.len() ==> (#[trigger] unvisited@[j]).1 < (#[trigger] unvisited@[k]).1,
                forall|i: int, b: usize|
                    i < edge_idx && #[trigger] g.slot_leads(current, i, b) && !visited@[b as int]
                        ==> unvisited@.contains((b, i as usize)),
            decreases slots - edge_idx,
        {
            let neighbor_opt = self.cells[current].neighbors[edge_idx];
            assert(neighbor_opt == g.neighbors[current as int][edge_idx as int]);
            if let Some(neighbor) = neighbor_opt {
                if !visited[neighbor] {
                    let ghost listed = unvisited@;
                    unvisited.push((neighbor, edge_idx));
                    proof {
                        assert forall|i: int, b: usize|
                            i < edge_idx + 1 && #[trigger] g.slot_leads(current, i, b) && !visited@[b as int] implies unvisited@.contains((b, i as usize)) by {
                            if i == edge_idx {
                                assert(unvisited@[listed.len() as int] == (b, i as usize));
                            } else {
                                let k = choose|k: int| 0 <= k < listed.len() && listed[k] == (b, i as usize);
                                assert(unvisited@[k] == (b, i as usize));
                            }
                        }
                    }
                }
            }
            edge_idx += 1;
        }
        unvisited
    }

    /// Carves a passage from `current` through slot `edge_idx` into the
    /// neighbour `next` on that slot: takes down the wall on the slot and the
    /// wall on the first slot of `next` that leads back.
    pub fn open_passage(&mut self, current: usize, edge_idx: usize, next: usize)
        requires
            old(self)@.shaped(),
            current < old(self)@.size(),
            old(self)@.slot_leads(current, edge_idx as int, next),
        ensures
            final(self)@ == old(self)@.carved(current, edge_idx as int),
            final(self).width == old(self).width,
            final(self).height == old(self).height,
    {
        let ghost g = self@;
        assert(self.cells@[current as int].walls@ == g.walls[current as int]);
        self.cells[current].walls[edge_idx] = false;
        assert(self@ =~= g.lowered(current, edge_idx as int)) by {
            assert(self@.neighbors =~= g.neighbors);
            assert(self@.walls =~= g.lowered(current, edge_idx as int).walls);
        }
        let ghost near = self@;
        let ghost mut hit: Option<int> = None;
        let slots = self.cells[next].neighbors.len();
        let mut rev_idx: usize = 0;
        while rev_idx < slots
            invariant_except_break
                self@ == near,
                hit is None,
            invariant
                near.neighbors == g.neighbors,
                near.walls.len() == g.walls.len(),
                near.walls[next as int].len() == g.neighbors[next as int].len(),
                next < g.size(),
                slots == g.neighbors[next as int].len(),
                rev_idx <= slots,
                self.width == old(self).width,
                self.height == old(self).height,
                forall|k: int| 0 <= k < rev_idx ==> g.neighbors[next as int][k] != Some(current),
            ensures
                match hit {
                    Some(j) => rev_idx == j && j < slots && g.neighbors[next as int][j] == Some(current)
                        && self@ == near.lowered(next, j),
                    None => rev_idx == slots && self@ == near,
                },
            decreases slots - rev_idx,
        {
            let back = self.cells[next].neighbors[rev_idx];
            assert(back == g.neighbors[next as int][rev_idx as int]);
            let leads_back = match back {
                Some(n) => n == current,
                None => false,
            };
            if leads_back {
                assert(self.cells@[next as int].walls@ == near.walls[next as int]);
                self.cells[next].walls[rev_idx] = false;
                assert(self@ =~= near.lowered(next, rev_idx as int)) by {
                    assert(self@.neighbors =~= near.neighbors);
                    assert(self@.walls =~= near.lowered(next, rev_idx as int).walls);
                }
                proof {
                    hit = Some(rev_idx as int);
                }
                break ;
            }
            rev_idx += 1;
        }
        proof {
            let row = g.neighbors[next as int];
            row.index_of_first_ensures(Some(current));
            match hit {
                Some(j) => {
                    assert(row.contains(Some(current)));
                    let first = row.index_of_first(Some(current)).unwrap();
                    if first < j {
                        assert(row[first] != Some(current));
                    }
                    if j < first {
                        assert(row[j] != Some(current));
                    }
                },
                None => {
                    if row.contains(Some(current)) {
                        let k = choose|k: int| 0 <= k < row.len() && row[k] == Some(current);
                        assert(row[k] != Some(current));
                    }
                },
            }
        }
    }

    /// Carves a perfect maze: a randomised depth-first walk from the
    /// entrance, which takes down the two walls between the cell where it
    /// stands and a neighbour, picked at random among those not yet visited,
    /// steps into it, and goes back a cell where there is none.
    ///
    /// Whatever is picked, walls only come down, and only between a cell
    /// and a neighbour, and in the end the passages reach from the entrance
    /// every cell that the grid links to it. On a grid whose cells name each
    /// other in turn, passages that went both ways still do, and where all
    /// its walls stood, the outcome is perfect.
    pub fn generate(&mut self)
        requires
            old(self)@.shaped(),
        ensures
            final(self).width == old(self).width,
            final(self).height == old(self).height,
            old(self)@.carves_to(final(self)@),
            final(self)@.shaped(),
            old(self).wf() ==> final(self).wf(),
            final(self)@.spans(),
            old(self)@.mutual() && old(self)@.two_way() ==> final(self)@.two_way(),
            old(self)@.mutual() && old(self)@.all_closed() ==> final(self)@.perfect(),
    {
        let ghost g0 = self@;
        let ghost fresh = g0.mutual() && g0.all_closed();
        let ghost paired = g0.mutual() && g0.two_way();
        let mut rng = rand::thread_rng();
        let count = self.cells.len();
        let mut visited = unmarked(count);
        let mut stack: Vec<usize> = Vec::new();

        stack.push(0);
        visited[0] = true;

        let ghost mut rank: Seq<int> = Seq::new(count as nat, |c: int| 0int);
        let ghost mut clock: int = 1;
        let ghost mut ways: Seq<Seq<usize>> = Seq::new(count as nat, |c: int| seq![0usize]);
        let ghost mut unseen: Set<int> = vstd::set_lib::set_int_range(0, count as int);
        proof {
            vstd::set_lib::lemma_int_range(0, count as int);
            assert(stack@ =~= seq![0usize]);
            assert(visited@ =~= Seq::new(g0.size(), |c: int| false).update(0, true));
            lemma_reach_starts(g0, visited@);
            if fresh {
                lemma_tree_starts(g0, visited@);
            }
            assert(stack@[0] == 0);
        }

        loop
            invariant
                self.width == old(self).width,
                self.height == old(self).height,
                g0 == old(self)@,
                g0.shaped(),
                g0.carves_to(self@),
                self@.shaped(),
                count == g0.size(),
                visited@.len() == count,
                visited@[0],
                forall|k: int| 0 <= k < stack@.len() ==> (#[trigger] stack@[k]) < count && visited@[stack@[k] as int],
                reaching(self@, visited@, stack@, ways),
                fresh ==> g0.mutual(),
                fresh ==> carving(self@, visited@, rank, clock),
                paired ==> g0.mutual() && self@.two_way(),
                unseen.finite(),
                forall|v: int| 0 <= v < count && !visited@[v] ==> #[trigger] unseen.contains(v),
            ensures
                stack@.len() == 0,
            decreases unseen.len(), stack@.len(),
        {
            if stack.len() == 0 {
                break ;
            }
            let current = stack[stack.len() - 1];
            let ghost g = self@;
            let unvisited = self.unvisited_neighbors(current, &visited);
            match pick(&unvisited, &mut rng) {
                None => {
                    proof {
                        assert(stack@.last() == current);
                        assert forall|j: int, b: usize| #[trigger]
                            g.slot_leads(stack@.last(), j, b) implies visited@[b as int] by {
                            if !visited@[b as int] {
                                assert(unvisited@.contains((b, j as usize)));
                            }
                        }
                        lemma_reach_back(g, visited@, stack@, ways);
                    }
                    stack.pop();
                },
                Some((next, edge_idx)) => {
                    proof {
                        let k = choose|k: int| 0 <= k < unvisited@.len() && unvisited@[k] == (next, edge_idx);
                        assert(g.slot_leads(current, unvisited@[k].1 as int, unvisited@[k].0));
                        lemma_carved(g, current, edge_idx as int, next);
                        assert(g.mutual() <== g0.mutual()) by {
                            if g0.mutual() {
                                assert forall|a: usize, b: usize| a < g.size() && #[trigger] g.adjacent(a, b) implies g.adjacent(b, a) by {
                                    let i = choose|i: int| g.slot_leads(a, i, b);
                                    assert(g0.slot_leads(a, i, b));
                                    assert(g0.adjacent(a, b));
                                    let j = choose|j: int| g0.slot_leads(b, j, a);
                                    assert(g.slot_leads(b, j, a));
                                }
                            }
                        }
                        lemma_reach_forward(
                            g,
                            visited@,
                            stack@,
                            ways,
                            current,
                            edge_idx as int,
                            next,
                        );
                        if fresh {
                            lemma_tree_forward(
                                g,
                                visited@,
                                rank,
                                clock,
                                current,
                                edge_idx as int,
                                next,
                            );
                        }
                        if paired {
                            lemma_two_way_forward(g, current, edge_idx as int, next);
                        }
                        rank = rank.update(next as int, clock);
                        ways = ways.update(next as int, ways[current as int].push(next));
                        clock = clock + 1;
                        assert(unseen.contains(next as int));
                        unseen = unseen.remove(next as int);
                    }
                    self.open_passage(current, edge_idx, next);
                    visited[next] = true;
                    stack.push(next);
                    proof {
                        assert(stack@[stack@.len() - 1] == next);
                    }
                },
            }
        }
        proof {
            assert(stack@ =~= Seq::<usize>::empty());
            lemma_reach_ends(self@, visited@, ways);
            if fresh {
                lemma_tree_ends(self@, visited@, rank, clock);
            }
        }
    }
}

} // verus!
