//! Why the generator carves a perfect maze: what holds of its passages
//! after every step of the walk.

use crate::grid::Grid;
use crate::tree::{
    lemma_carved, lemma_closed_reach, lemma_opens_to_opened, lemma_ranked_acyclic,
    lemma_walk_persists,
};
use vstd::prelude::*;

verus! {

/// The cells that `seen` marks.
pub open spec fn marked(g: Grid, seen: Seq<bool>) -> Set<usize> {
    Set::new(|c: usize| c < g.size() && seen[c as int])
}

/// How far the walk has come. `ways` holds for each seen cell a walk to it
/// from the entrance, and all the neighbours of a seen cell that the walk
/// has left for good are seen.
pub closed spec fn reaching(g: Grid, seen: Seq<bool>, stack: Seq<usize>, ways: Seq<Seq<usize>>) -> bool {
    &&& ways.len() == g.size()
    &&& forall|c: usize| c < g.size() && #[trigger] seen[c as int] ==> g.route(0, c, ways[c as int])
    &&& forall|c: usize, b: usize|
        c < g.size() && b < g.size() && seen[c as int] && !stack.contains(c) && #[trigger] g.adjacent(
            c,
            b,
        ) ==> seen[b as int]
}

/// What the walk has carved so far, where it began with every wall
/// standing. Passages go both ways and join seen cells only. `rank`, the
/// order in which the cells were seen, allows no cycle. And there is one
/// passage fewer than there are seen cells.
pub closed spec fn carving(g: Grid, seen: Seq<bool>, rank: Seq<int>, clock: int) -> bool {
    &&& g.two_way()
    &&& forall|a: usize, b: usize|
        a < g.size() && b < g.size() && #[trigger] g.passage(a, b) ==> seen[a as int] && seen[b as int]
    &&& g.ranked(rank)
    &&& forall|c: usize| c < g.size() && #[trigger] seen[c as int] ==> 0 <= rank[c as int] < clock
    &&& marked(g, seen).finite()
    &&& g.open_pairs().finite()
    &&& g.open_pairs().len() == marked(g, seen).len() - 1
}

/// Before the first step the walk has come to the entrance.
pub proof fn lemma_reach_starts(g: Grid, seen: Seq<bool>)
    requires
        g.shaped(),
        seen == Seq::new(g.size(), |c: int| false).update(0, true),
    ensures
        reaching(g, seen, seq![0usize], Seq::new(g.size(), |c: int| seq![0usize])),
{
    let stack = seq![0usize];
    assert(stack[0] == 0);
    assert(stack.contains(0));
    let way = seq![0usize];
    assert(g.route(0, 0, way));
}

/// The walk steps from `current` through slot `i` into the unseen `next`:
/// how far it has come then.
pub proof fn lemma_reach_forward(
    g: Grid,
    seen: Seq<bool>,
    stack: Seq<usize>,
    ways: Seq<Seq<usize>>,
    current: usize,
    i: int,
    next: usize,
)
    requires
        g.shaped(),
        seen.len() == g.size(),
        reaching(g, seen, stack, ways),
        current < g.size(),
        seen[current as int],
        g.slot_leads(current, i, next),
        !seen[next as int],
    ensures
        reaching(
            g.carved(current, i),
            seen.update(next as int, true),
            stack.push(next),
            ways.update(next as int, ways[current as int].push(next)),
        ),
{
    let h = g.carved(current, i);
    let seen2 = seen.update(next as int, true);
    let stack2 = stack.push(next);
    let ways2 = ways.update(next as int, ways[current as int].push(next));
    lemma_carved(g, current, i, next);
    assert(next < g.size());
    let way = ways[current as int];
    let longer = way.push(next);
    assert(g.route(0, current, way));
    lemma_walk_persists(g, h, way);
    assert forall|k: int| 0 <= k < longer.len() - 1 implies h.passage(#[trigger] longer[k], longer[k + 1]) by {
        if k < way.len() - 1 {
            assert(longer[k] == way[k] && longer[k + 1] == way[k + 1]);
            assert(h.passage(way[k], way[k + 1]));
        } else {
            assert(longer[k] == current && longer[k + 1] == next);
        }
    }
    assert(h.route(0, next, longer));
    assert forall|c: usize| c < h.size() && #[trigger] seen2[c as int] implies h.route(
        0,
        c,
        ways2[c as int],
    ) by {
        if c != next {
            assert(seen[c as int]);
            lemma_walk_persists(g, h, ways[c as int]);
        }
    }
    assert forall|c: usize, b: usize|
        c < h.size() && b < h.size() && seen2[c as int] && !stack2.contains(c) && #[trigger] h.adjacent(
            c,
            b,
        ) implies seen2[b as int] by {
        assert(stack2[stack.len() as int] == next);
        if stack.contains(c) {
            let k = choose|k: int| 0 <= k < stack.len() && stack[k] == c;
            assert(stack2[k] == c);
        }
        let j = choose|j: int| h.slot_leads(c, j, b);
        assert(g.slot_leads(c, j, b));
        assert(g.adjacent(c, b));
        assert(seen[c as int]);
    }
}

/// The walk leaves the cell on top of the stack, all of whose neighbours
/// are seen.
pub proof fn lemma_reach_back(g: Grid, seen: Seq<bool>, stack: Seq<usize>, ways: Seq<Seq<usize>>)
    requires
        reaching(g, seen, stack, ways),
        stack.len() > 0,
        forall|j: int, b: usize| #[trigger] g.slot_leads(stack.last(), j, b) ==> seen[b as int],
    ensures
        reaching(g, seen, stack.drop_last(), ways),
{
    let rest = stack.drop_last();
    assert forall|c: usize, b: usize|
        c < g.size() && b < g.size() && seen[c as int] && !rest.contains(c) && #[trigger] g.adjacent(
            c,
            b,
        ) implies seen[b as int] by {
        if stack.contains(c) {
            let k = choose|k: int| 0 <= k < stack.len() && stack[k] == c;
            if k < rest.len() {
                assert(rest[k] == c);
            }
            let j = choose|j: int| g.slot_leads(c, j, b);
            assert(g.slot_leads(stack.last(), j, b));
        }
    }
}

/// When the walk has come to its end, the seen cells are those that the
/// passages reach from the entrance, and those that the grid links to it.
pub proof fn lemma_reach_ends(g: Grid, seen: Seq<bool>, ways: Seq<Seq<usize>>)
    requires
        g.shaped(),
        seen.len() == g.size(),
        seen[0],
        reaching(g, seen, Seq::<usize>::empty(), ways),
    ensures
        g.spans(),
        forall|c: usize| c < g.size() ==> (#[trigger] g.connected(0, c) <==> seen[c as int]),
{
    lemma_opens_to_opened(g);
    let none = Seq::<usize>::empty();
    assert forall|u: usize, w: usize|
        u < g.size() && w < g.size() && seen[u as int] && #[trigger] g.adjacent(u, w) implies seen[w as int] by {
        assert(!none.contains(u));
    }
    assert forall|c: usize| c < g.size() && #[trigger] g.linked(0, c) implies seen[c as int] by {
        let q = choose|q: Seq<usize>| g.opened().route(0, c, q);
        lemma_closed_reach(g, seen, q, q.len() - 1);
    }
    assert forall|c: usize| c < g.size() && #[trigger] g.connected(0, c) implies g.linked(0, c) by {
        let p = choose|p: Seq<usize>| g.route(0, c, p);
        lemma_walk_persists(g, g.opened(), p);
        assert(g.opened().route(0, c, p));
    }
    assert forall|c: usize| c < g.size() && seen[c as int] implies #[trigger] g.connected(0, c) by {
        assert(g.route(0, c, ways[c as int]));
    }
    assert forall|c: usize| c < g.size() implies (#[trigger] g.connected(0, c) <==> seen[c as int]) by {
        if g.connected(0, c) {
            assert(g.linked(0, c));
        }
    }
    assert forall|c: usize|
        #![trigger g.linked(0, c)]
        #![trigger g.connected(0, c)]
        c < g.size() implies (g.linked(0, c) <==> g.connected(0, c)) by {
        if g.linked(0, c) {
            assert(seen[c as int]);
        }
    }
}

/// Carving a passage between two cells that name each other keeps the
/// passages going both ways.
pub proof fn lemma_two_way_forward(g: Grid, current: usize, i: int, next: usize)
    requires
        g.shaped(),
        g.mutual(),
        g.two_way(),
        current < g.size(),
        g.slot_leads(current, i, next),
    ensures
        g.carved(current, i).two_way(),
{
    let h = g.carved(current, i);
    lemma_carved(g, current, i, next);
    assert(g.adjacent(current, next));
    assert(g.adjacent(next, current));
    assert forall|a: usize, b: usize|
        a < h.size() && b < h.size() && #[trigger] h.passage(a, b) implies h.passage(b, a) by {
        if g.passage(a, b) {
            assert(g.passage(b, a));
        }
    }
}

/// Before the first step, with every wall standing, nothing is carved.
pub proof fn lemma_tree_starts(g: Grid, seen: Seq<bool>)
    requires
        g.shaped(),
        g.all_closed(),
        seen == Seq::new(g.size(), |c: int| false).update(0, true),
    ensures
        carving(g, seen, Seq::new(g.size(), |c: int| 0int), 1),
{
    assert forall|a: usize, b: usize| a < g.size() && b < g.size() implies !#[trigger] g.passage(a, b) by {
        if g.passage(a, b) {
            let i = choose|i: int| g.slot_open(a, i, b);
            assert(g.walls[a as int].len() == g.neighbors[a as int].len());
            assert(g.walls[a as int][i]);
        }
    }
    assert(marked(g, seen) =~= Set::<usize>::empty().insert(0));
    assert(g.open_pairs() =~= Set::<(usize, usize)>::empty());
}

/// The walk steps from `current` through slot `i` into the unseen `next`:
/// what it has carved then.
pub proof fn lemma_tree_forward(
    g: Grid,
    seen: Seq<bool>,
    rank: Seq<int>,
    clock: int,
    current: usize,
    i: int,
    next: usize,
)
    requires
        g.shaped(),
        g.mutual(),
        seen.len() == g.size(),
        carving(g, seen, rank, clock),
        current < g.size(),
        seen[current as int],
        g.slot_leads(current, i, next),
        !seen[next as int],
    ensures
        carving(
            g.carved(current, i),
            seen.update(next as int, true),
            rank.update(next as int, clock),
            clock + 1,
        ),
{
    let h = g.carved(current, i);
    let seen2 = seen.update(next as int, true);
    let rank2 = rank.update(next as int, clock);
    lemma_carved(g, current, i, next);
    lemma_two_way_forward(g, current, i, next);
    assert(next < g.size());
    assert(g.adjacent(current, next));
    assert(g.adjacent(next, current));
    assert(h.passage(current, next) && h.passage(next, current));
    // the order allows no cycle
    assert forall|a: usize, b: usize|
        a < h.size() && b < h.size() && #[trigger] h.passage(a, b) implies rank2[a as int]
        != rank2[b as int] by {
        if g.passage(a, b) {
            assert(seen[a as int] && seen[b as int]);
        }
    }
    assert forall|a: usize, b: usize, c: usize|
        a < h.size() && b < h.size() && c < h.size() && #[trigger] h.passage(a, b)
            && #[trigger] h.passage(a, c) && rank2[b as int] < rank2[a as int] && rank2[c as int]
            < rank2[a as int] implies b == c by {
        if g.passage(a, b) {
            assert(seen[a as int] && seen[b as int]);
        }
        if g.passage(a, c) {
            assert(seen[a as int] && seen[c as int]);
        }
        if a != next {
            assert(seen[a as int]);
            assert(g.passage(a, b) && g.passage(a, c));
        }
    }
    // one more cell, one more passage
    let pair = if current < next {
        (current, next)
    } else {
        (next, current)
    };
    assert(marked(h, seen2) =~= marked(g, seen).insert(next));
    assert(!g.open_pairs().contains(pair)) by {
        if g.passage(pair.0, pair.1) {
            assert(seen[pair.0 as int] && seen[pair.1 as int]);
        }
    }
    assert(h.open_pairs() =~= g.open_pairs().insert(pair)) by {
        assert forall|e: (usize, usize)|
            h.open_pairs().contains(e) <==> g.open_pairs().insert(pair).contains(e) by {
            if e.0 < e.1 < g.size() {
                if g.passage(e.0, e.1) {
                    assert(h.passage(e.0, e.1));
                }
                if h.passage(e.0, e.1) {
                    assert(g.passage(e.0, e.1) || e == pair);
                }
            }
        }
    }
}

/// When the walk has come to its end, what it has carved is a tree that
/// spans whatever the grid links to the entrance.
pub proof fn lemma_tree_ends(g: Grid, seen: Seq<bool>, rank: Seq<int>, clock: int)
    requires
        g.shaped(),
        seen.len() == g.size(),
        carving(g, seen, rank, clock),
        g.spans(),
        forall|c: usize| c < g.size() ==> (#[trigger] g.connected(0, c) <==> seen[c as int]),
    ensures
        g.perfect(),
{
    lemma_ranked_acyclic(g, rank);
    assert forall|a: usize, b: usize|
        a < g.size() && b < g.size() && #[trigger] g.passage(a, b) implies g.connected(0, a) by {
        assert(seen[a as int]);
    }
    assert(g.reach() =~= marked(g, seen));
}

} // verus!
