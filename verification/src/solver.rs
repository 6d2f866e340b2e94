//! The solver: breadth-first search from the entrance to the exit.

use crate::genericmaze::{unmarked, GenericMaze, Shape};
use crate::grid::Grid;
use crate::order::{lemma_earlier_or_same, lemma_same_doors};
use crate::search::{
    found, lemma_exit, lemma_finish, lemma_hand, lemma_no_way, lemma_parent, lemma_push,
    lemma_skip, lemma_start, lemma_take, scan, sound, Search,
};
use std::collections::{HashMap, VecDeque};
use vstd::prelude::*;

verus! {

broadcast use vstd::std_specs::hash::group_hash_axioms;

/// The cells of `v` in the opposite order.
pub fn reversed(v: &Vec<usize>) -> (r: Vec<usize>)
    ensures
        r@ == v@.reverse(),
{
    let mut r: Vec<usize> = Vec::new();
    let mut left: usize = v.len();
    while left > 0
        invariant
            left <= v.len(),
            r@.len() == v.len() - left,
            forall|k: int| 0 <= k < r@.len() ==> r@[k] == v@[v.len() - 1 - k],
        decreases left,
    {
        left -= 1;
        r.push(v[left]);
    }
    assert(r@ =~= v@.reverse());
    r
}

impl<S: Shape> GenericMaze<S> {
    /// The shortest way from the entrance, cell 0, to the exit, the last
    /// cell, found by a breadth-first search that tries the slots of a cell
    /// in their order. Where no way leads to the exit, the exit alone.
    pub fn solve(&self) -> (path: Vec<usize>)
        requires
            self@.shaped(),
        ensures
            self@.solved_by(path@),
    {
        let count = self.cells.len();
        let end = count - 1;
        let ghost g = self@;
        let mut queue: VecDeque<usize> = VecDeque::new();
        let mut visited = unmarked(count);
        let mut parent: HashMap<usize, usize> = HashMap::new();
        let mut reached = false;

        queue.push_back(0);
        visited[0] = true;

        let ghost mut s = Search::start(count as nat);
        let ghost mut todo: Set<int> = vstd::set_lib::set_int_range(0, count as int);
        proof {
            vstd::set_lib::lemma_int_range(0, count as int);
            lemma_start(g);
            assert(queue@ =~= s.waiting);
            assert(visited@ =~= s.seen);
            assert(parent@ =~= s.parent);
        }

        loop
            invariant_except_break
                !reached,
                s.hand is None,
            invariant
                g == self@,
                g.shaped(),
                count == g.size(),
                end == count - 1,
                visited@ == s.seen,
                parent@ == s.parent,
                queue@ == s.waiting,
                visited@.len() == count,
                s.done.len() == count,
                sound(g, s),
                !s.done[end as int],
                todo.finite(),
                forall|v: int| 0 <= v < count && !s.done[v] ==> #[trigger] todo.contains(v),
            ensures
                reached ==> s.hand == Some(end),
                !reached ==> s.hand is None && s.waiting.len() == 0,
            decreases todo.len(),
        {
            let current = match queue.pop_front() {
                Some(c) => c,
                None => {
                    break ;
                },
            };
            proof {
                lemma_take(g, s);
                s = s.take();
                lemma_hand(g, s);
            }
            if current == end {
                reached = true;
                break ;
            }
            let slots = self.cells[current].neighbors.len();
            let mut edge_idx: usize = 0;
            while edge_idx < slots
                invariant
                    g == self@,
                    g.shaped(),
                    count == g.size(),
                    current < count,
                    visited@ == s.seen,
                    parent@ == s.parent,
                    queue@ == s.waiting,
                    visited@.len() == count,
                    s.done.len() == count,
                    s.hand == Some(current),
                    slots == g.neighbors[current as int].len(),
                    edge_idx <= slots,
                    sound(g, s),
                    scan(g, s, edge_idx as int),
                    !s.done[end as int],
                    current != end,
                    forall|v: int| 0 <= v < count && !s.done[v] ==> #[trigger] todo.contains(v),
                decreases slots - edge_idx,
            {
                let neighbor_opt = self.cells[current].neighbors[edge_idx];
                assert(neighbor_opt == g.neighbors[current as int][edge_idx as int]);
                assert(self.cells@[current as int].walls@ == g.walls[current as int]);
                if let Some(neighbor) = neighbor_opt {
                    if !self.cells[current].walls[edge_idx] && !visited[neighbor] {
                        proof {
                            assert(g.slot_open(current, edge_idx as int, neighbor));
                            lemma_push(g, s, edge_idx as int, neighbor);
                            s = s.push(neighbor);
                        }
                        visited[neighbor] = true;
                        parent.insert(neighbor, current);
                        queue.push_back(neighbor);
                    } else {
                        proof {
                            lemma_skip(g, s, edge_idx as int);
                        }
                    }
                } else {
                    proof {
                        lemma_skip(g, s, edge_idx as int);
                    }
                }
                edge_idx += 1;
            }
            proof {
                lemma_finish(g, s);
                s = s.finish();
                assert(todo.contains(current as int));
                todo = todo.remove(current as int);
            }
        }

        proof {
            if reached {
                lemma_hand(g, s);
            } else {
                lemma_no_way(g, s);
            }
        }
        let mut path: Vec<usize> = Vec::new();
        let mut current = end;
        path.push(current);
        while current != 0
            invariant
                g == self@,
                count == g.size(),
                end == count - 1,
                parent@ == s.parent,
                found(g, s),
                path@.len() >= 1,
                path@[0] == end,
                current == path@[path@.len() - 1],
                current < count,
                reached ==> s.seen[end as int],
                !reached ==> !s.seen[end as int] && path@.len() == 1,
                reached ==> forall|k: int|
                    0 <= k < path@.len() ==> (#[trigger] path@[k]) < count && s.seen[path@[k] as int],
                reached ==> forall|k: int|
                    0 <= k < path@.len() - 1 ==> s.parent.contains_key(#[trigger] path@[k])
                        && s.parent[path@[k]] == path@[k + 1],
            ensures
                path@.len() >= 1,
                path@[0] == end,
                !reached ==> path@.len() == 1,
                reached ==> path@[path@.len() - 1] == 0,
                reached ==> forall|k: int| 0 <= k < path@.len() ==> (#[trigger] path@[k]) < count,
                reached ==> forall|k: int|
                    0 <= k < path@.len() - 1 ==> s.parent.contains_key(#[trigger] path@[k])
                        && s.parent[path@[k]] == path@[k + 1],
            decreases s.dist[current as int],
        {
            proof {
                lemma_parent(g, s, current);
            }
            match parent.get(&current) {
                Some(prev) => {
                    let prev = *prev;
                    assert(s.parent.contains_key(current) && s.parent[current] == prev);
                    path.push(prev);
                    current = prev;
                },
                None => {
                    assert(!s.parent.contains_key(current));
                    break ;
                },
            }
        }
        let ghost back = path@;
        let path = reversed(&path);
        proof {
            let p = path@;
            let n = p.len() as int;
            assert(g.exit() == end);
            if reached {
                assert forall|k: int| 0 <= k < n implies #[trigger] p[k] == back[n - 1 - k] by {}
                assert forall|j: int|
                    0 <= j < n - 1 implies s.parent.contains_key(#[trigger] p[j + 1]) && s.parent[p[j + 1]]
                    == p[j] by {
                    assert(p[j + 1] == back[n - 2 - j]);
                    assert(s.parent.contains_key(back[n - 2 - j]));
                }
                lemma_exit(g, s, p);
            } else {
                assert(p =~= seq![end]);
            }
        }
        path
    }
}

/// The solver has one answer only: whatever two runs return on one maze is
/// the same path.
pub proof fn lemma_one_solution(g: Grid, first: Seq<usize>, second: Seq<usize>)
    requires
        g.solved_by(first),
        g.solved_by(second),
    ensures
        first == second,
{
    if g.connected(0, g.exit()) {
        assert(g.route(0, g.exit(), first) && g.route(0, g.exit(), second));
        assert(first.len() == second.len());
        lemma_earlier_or_same(g.doors(first), g.doors(second));
        assert forall|k: int| 0 <= k < first.len() implies first[k] == second[k] by {
            lemma_same_doors(g, first, second, k);
        }
        assert(first =~= second);
    }
}

/// Where the passages reach whatever the grid links to the entrance, and
/// the grid links the exit to it, the path owed leads through the maze: it
/// is a walk from the entrance to the exit that visits no cell twice.
pub proof fn lemma_way_through(g: Grid, path: Seq<usize>)
    requires
        g.size() >= 1,
        g.size() <= usize::MAX,
        g.spans(),
        g.linked(0, g.exit()),
        g.solved_by(path),
    ensures
        g.route(0, g.exit(), path),
        path.no_duplicates(),
{
    assert(g.connected(0, g.exit()));
}

} // verus!
