//! What is proved of walks in a grid: how they survive the fall of walls,
//! what carving a passage adds to them, and why a ranked grid holds no cycle.

use crate::grid::Grid;
use vstd::prelude::*;

verus! {

/// A walk stays a walk when walls come down.
pub proof fn lemma_walk_persists(g: Grid, later: Grid, p: Seq<usize>)
    requires
        g.shaped(),
        g.opens_to(later),
        g.walk(p),
    ensures
        later.walk(p),
{
    assert forall|k: int| 0 <= k < p.len() - 1 implies later.passage(#[trigger] p[k], p[k + 1]) by {
        let a = p[k];
        let b = p[k + 1];
        let i = choose|i: int| g.slot_open(a, i, b);
        assert(g.walls[a as int].len() == g.neighbors[a as int].len());
        assert(!later.walls[a as int][i]);
        assert(later.slot_open(a, i, b));
    }
}

/// Taking every wall down is taking walls down.
pub proof fn lemma_opens_to_opened(g: Grid)
    requires
        g.shaped(),
    ensures
        g.opens_to(g.opened()),
        g.opened().shaped(),
{
    assert forall|c: int| 0 <= c < g.size() implies (#[trigger] g.opened().walls[c]).len() == g.opened().neighbors[c].len() by {
        assert(g.walls[c].len() == g.neighbors[c].len());
    }
}

/// A set of cells that holds the entrance and, with a cell, all its
/// neighbours, holds every cell that the grid links to the entrance.
pub proof fn lemma_closed_reach(g: Grid, seen: Seq<bool>, q: Seq<usize>, upto: int)
    requires
        seen.len() == g.size(),
        seen[0],
        forall|u: usize, w: usize|
            u < g.size() && w < g.size() && seen[u as int] && #[trigger] g.adjacent(u, w)
                ==> seen[w as int],
        g.opened().walk(q),
        q.first() == 0,
        0 <= upto < q.len(),
    ensures
        seen[q[upto] as int],
    decreases upto,
{
    if upto > 0 {
        lemma_closed_reach(g, seen, q, upto - 1);
        let u = q[upto - 1];
        let w = q[upto];
        assert(g.opened().passage(u, w));
        let i = choose|i: int| g.opened().slot_open(u, i, w);
        assert(g.slot_leads(u, i, w));
        assert(g.adjacent(u, w));
    }
}

/// The entrance is linked to itself, and whatever is linked to the entrance
/// links its neighbours to it.
pub proof fn lemma_link_extends(g: Grid, a: usize, b: usize)
    requires
        g.shaped(),
        a < g.size(),
    ensures
        g.linked(0, 0),
        g.linked(0, a) && g.adjacent(a, b) ==> g.linked(0, b),
{
    let o = g.opened();
    let start = seq![0usize];
    assert(o.route(0, 0, start));
    if g.linked(0, a) && g.adjacent(a, b) {
        let p = choose|p: Seq<usize>| o.route(0, a, p);
        let i = choose|i: int| g.slot_leads(a, i, b);
        assert(o.slot_open(a, i, b));
        assert(o.passage(a, b));
        let q = p.push(b);
        assert forall|k: int| 0 <= k < q.len() - 1 implies o.passage(#[trigger] q[k], q[k + 1]) by {
            if k < p.len() - 1 {
                assert(q[k] == p[k] && q[k + 1] == p[k + 1]);
                assert(o.passage(p[k], p[k + 1]));
            }
        }
        assert forall|k: int| 0 <= k < q.len() implies (#[trigger] q[k]) < o.size() by {
            if k < p.len() {
                assert(q[k] == p[k]);
            }
        }
        assert(o.route(0, b, q));
    }
}

/// Where every cell is linked to the entrance, a perfect maze is carved
/// whole: its passages lead from the entrance to every cell, and there is one
/// passage fewer than there are cells.
pub proof fn lemma_perfect_whole(g: Grid)
    requires
        g.shaped(),
        g.size() <= usize::MAX,
        g.perfect(),
        forall|c: usize| c < g.size() ==> #[trigger] g.linked(0, c),
    ensures
        forall|c: usize| c < g.size() ==> #[trigger] g.connected(0, c),
        g.open_pairs().len() == g.size() - 1,
{
    assert forall|c: usize| c < g.size() implies #[trigger] g.connected(0, c) by {
        assert(g.linked(0, c));
    }
    let all = Set::new(|c: usize| c < g.size());
    assert(g.reach() =~= all);
    lemma_count_below(g.size());
}

/// There are `n` indices below `n`.
proof fn lemma_count_below(n: nat)
    requires
        n <= usize::MAX + 1,
    ensures
        Set::new(|c: usize| c < n).finite(),
        Set::new(|c: usize| c < n).len() == n,
    decreases n,
{
    let below = Set::new(|c: usize| c < n);
    if n == 0 {
        assert(below =~= Set::<usize>::empty());
    } else {
        let fewer = Set::new(|c: usize| c < (n - 1) as nat);
        lemma_count_below((n - 1) as nat);
        assert(below =~= fewer.insert((n - 1) as usize));
    }
}

/// What carving a passage does to the passages: it adds the one carved, in
/// both directions where the neighbour names the cell in turn, and no other.
pub proof fn lemma_carved(g: Grid, a: usize, i: int, b: usize)
    requires
        g.shaped(),
        a < g.size(),
        g.slot_leads(a, i, b),
    ensures
        g.carves_to(g.carved(a, i)),
        g.carved(a, i).shaped(),
        g.carved(a, i).passage(a, b),
        g.adjacent(b, a) ==> g.carved(a, i).passage(b, a),
        forall|x: usize, y: usize|
            x < g.size() && y < g.size() && #[trigger] g.carved(a, i).passage(x, y) ==> g.passage(x, y)
                || (x == a && y == b) || (x == b && y == a),
        forall|x: usize, y: usize|
            x < g.size() && y < g.size() && #[trigger] g.passage(x, y) ==> g.carved(a, i).passage(x, y),
{
    let h = g.carved(a, i);
    let near = g.lowered(a, i);
    let row = g.neighbors[b as int];
    row.index_of_first_ensures(Some(a));
    assert(g.walls[a as int].len() == g.neighbors[a as int].len());
    assert(g.walls[b as int].len() == g.neighbors[b as int].len());
    assert(b < g.size());
    assert(near.slot_open(a, i, b));
    assert(h.slot_open(a, i, b));
    if g.adjacent(b, a) {
        let j0 = choose|j: int| g.slot_leads(b, j, a);
        assert(row[j0] == Some(a));
        assert(row.contains(Some(a)));
        let j = row.index_of_first(Some(a)).unwrap();
        assert(h.slot_open(b, j, a));
    }
    assert forall|c: int| 0 <= c < g.walls.len() implies (#[trigger] h.walls[c]).len() == g.walls[c].len() by {}
    assert forall|c: int, k: int|
        0 <= c < g.walls.len() && 0 <= k < g.walls[c].len() && #[trigger] h.walls[c][k] implies g.walls[c][k] by {}
    assert forall|x: usize, y: usize|
        x < g.size() && y < g.size() && #[trigger] h.passage(x, y) implies g.passage(x, y) || (x == a && y == b) || (x == b && y == a) by {
        let k = choose|k: int| h.slot_open(x, k, y);
        assert(g.walls[x as int].len() == g.neighbors[x as int].len());
        if !g.walls[x as int][k] {
            assert(g.slot_open(x, k, y));
        }
    }
    assert forall|x: usize, y: usize|
        x < g.size() && y < g.size() && #[trigger] g.passage(x, y) implies h.passage(x, y) by {
        let k = choose|k: int| g.slot_open(x, k, y);
        assert(g.walls[x as int].len() == g.neighbors[x as int].len());
        assert(h.slot_open(x, k, y));
    }
    assert forall|c: int| 0 <= c < h.size() implies (#[trigger] h.walls[c]).len() == h.neighbors[c].len() by {
        assert(g.walls[c].len() == g.neighbors[c].len());
    }
}

/// What is left of a trail without its first cell is a trail.
proof fn lemma_trail_tail(g: Grid, p: Seq<usize>)
    requires
        g.trail(p),
        p.len() >= 2,
    ensures
        g.trail(p.subrange(1, p.len() as int)),
{
    let t = p.subrange(1, p.len() as int);
    assert forall|k: int| 0 <= k < t.len() implies (#[trigger] t[k]) < g.size() by {
        assert(t[k] == p[k + 1]);
    }
    assert forall|k: int| 0 <= k < t.len() - 1 implies g.passage(#[trigger] t[k], t[k + 1]) by {
        assert(t[k] == p[k + 1]);
        assert(t[k + 1] == p[k + 2]);
        assert(g.passage(p[k + 1], p[k + 1 + 1]));
    }
    assert forall|i: int, j: int| 0 <= i < t.len() && 0 <= j < t.len() && i != j implies t[i] != t[j] by {
        assert(p[i + 1] != p[j + 1]);
    }
}

/// What is left of a trail without its last cell is a trail.
proof fn lemma_trail_front(g: Grid, p: Seq<usize>)
    requires
        g.trail(p),
        p.len() >= 2,
    ensures
        g.trail(p.subrange(0, p.len() - 1)),
{
    let t = p.subrange(0, p.len() - 1);
    assert forall|k: int| 0 <= k < t.len() implies (#[trigger] t[k]) < g.size() by {
        assert(t[k] == p[k]);
    }
    assert forall|k: int| 0 <= k < t.len() - 1 implies g.passage(#[trigger] t[k], t[k + 1]) by {
        assert(t[k] == p[k]);
        assert(t[k + 1] == p[k + 1]);
        assert(g.passage(p[k], p[k + 1]));
    }
    assert forall|i: int, j: int| 0 <= i < t.len() && 0 <= j < t.len() && i != j implies t[i] != t[j] by {
        assert(p[i] != p[j]);
    }
}

/// On a trail in a ranked grid, once a step goes up in rank, every later
/// step does.
proof fn lemma_climb(g: Grid, rank: Seq<int>, p: Seq<usize>, k: int, m: int)
    requires
        g.two_way(),
        g.ranked(rank),
        g.trail(p),
        0 <= k <= m < p.len() - 1,
        rank[p[k] as int] < rank[p[k + 1] as int],
    ensures
        rank[p[m] as int] < rank[p[m + 1] as int],
    decreases m - k,
{
    if m > k {
        lemma_climb(g, rank, p, k, m - 1);
        let before = p[m - 1];
        let here = p[m];
        let after = p[m + 1];
        assert(g.passage(before, here));
        assert(g.passage(here, before));
        assert(g.passage(here, after));
        if rank[after as int] < rank[here as int] {
            assert(before == after);
            assert(p[m - 1] != p[m + 1]);
        }
    }
}

/// On such a trail, the cells after a step up all rank above the cell
/// before it.
proof fn lemma_climb_far(g: Grid, rank: Seq<int>, p: Seq<usize>, k: int, m: int)
    requires
        g.two_way(),
        g.ranked(rank),
        g.trail(p),
        0 <= k < m < p.len(),
        rank[p[k] as int] < rank[p[k + 1] as int],
    ensures
        rank[p[k] as int] < rank[p[m] as int],
    decreases m - k,
{
    if m > k + 1 {
        lemma_climb_far(g, rank, p, k, m - 1);
        lemma_climb(g, rank, p, k, m - 1);
    }
}

/// On a trail whose last step goes down in rank, every step does, so the
/// first cell ranks above the last.
proof fn lemma_descend_far(g: Grid, rank: Seq<int>, p: Seq<usize>, k: int)
    requires
        g.two_way(),
        g.ranked(rank),
        g.trail(p),
        p.len() >= 2,
        rank[p[p.len() - 2] as int] > rank[p[p.len() - 1] as int],
        0 <= k < p.len() - 1,
    ensures
        rank[p[k] as int] > rank[p[p.len() - 1] as int],
    decreases p.len() - k,
{
    let n = p.len() as int;
    if k < n - 2 {
        lemma_descend_far(g, rank, p, k + 1);
        assert(g.passage(p[k], p[k + 1]));
        if rank[p[k] as int] < rank[p[k + 1] as int] {
            lemma_climb(g, rank, p, k, n - 2);
        }
    }
}

/// In a ranked grid whose passages go both ways, two trails with the same
/// ends are one.
pub proof fn lemma_ranked_trails_agree(g: Grid, rank: Seq<int>, p: Seq<usize>, q: Seq<usize>)
    requires
        g.two_way(),
        g.ranked(rank),
        g.trail(p),
        g.trail(q),
        p.first() == q.first(),
        p.last() == q.last(),
    ensures
        p == q,
    decreases p.len() + q.len(),
{
    let a = p.first();
    let b = p.last();
    let n = p.len() as int;
    let m = q.len() as int;
    if n == 1 || m == 1 {
        if n > 1 {
            assert(p[0] == p[n - 1]);
        }
        if m > 1 {
            assert(q[0] == q[m - 1]);
        }
        assert(p =~= q);
    } else {
        assert(g.passage(p[0], p[1]));
        assert(g.passage(q[0], q[1]));
        if rank[p[1] as int] < rank[a as int] && rank[q[1] as int] < rank[a as int] {
            assert(p[1] == q[1]);
            let pt = p.subrange(1, n);
            let qt = q.subrange(1, m);
            lemma_trail_tail(g, p);
            lemma_trail_tail(g, q);
            lemma_ranked_trails_agree(g, rank, pt, qt);
            assert(p =~= seq![a] + pt);
            assert(q =~= seq![a] + qt);
        } else {
            assert(g.passage(p[n - 2], p[n - 2 + 1]));
            assert(g.passage(q[m - 2], q[m - 2 + 1]));
            if rank[p[1] as int] > rank[a as int] {
                lemma_climb(g, rank, p, 0, n - 2);
                lemma_climb_far(g, rank, p, 0, n - 1);
                if rank[q[m - 2] as int] > rank[b as int] {
                    lemma_descend_far(g, rank, q, 0);
                }
            } else {
                lemma_climb(g, rank, q, 0, m - 2);
                lemma_climb_far(g, rank, q, 0, m - 1);
                if rank[p[n - 2] as int] > rank[b as int] {
                    lemma_descend_far(g, rank, p, 0);
                }
            }
            assert(rank[p[n - 2] as int] < rank[b as int]);
            assert(rank[q[m - 2] as int] < rank[b as int]);
            assert(g.passage(b, p[n - 2]));
            assert(g.passage(b, q[m - 2]));
            assert(p[n - 2] == q[m - 2]);
            let pf = p.subrange(0, n - 1);
            let qf = q.subrange(0, m - 1);
            lemma_trail_front(g, p);
            lemma_trail_front(g, q);
            lemma_ranked_trails_agree(g, rank, pf, qf);
            assert(p =~= pf.push(b));
            assert(q =~= qf.push(b));
        }
    }
}

/// A ranked grid whose passages go both ways holds no cycle.
pub proof fn lemma_ranked_acyclic(g: Grid, rank: Seq<int>)
    requires
        g.two_way(),
        g.ranked(rank),
    ensures
        g.acyclic(),
{
    assert forall|p: Seq<usize>, q: Seq<usize>|
        #[trigger] g.trail(p) && #[trigger] g.trail(q) && p.first() == q.first() && p.last()
            == q.last() implies p == q by {
        lemma_ranked_trails_agree(g, rank, p, q);
    }
}

/// Where passages go both ways and no two trails join the same two cells,
/// no walk comes round in a ring: a walk of three steps or more that ends
/// where it began visits some other cell twice.
pub proof fn lemma_no_ring(g: Grid, ring: Seq<usize>)
    requires
        g.two_way(),
        g.acyclic(),
        g.walk(ring),
        ring.len() >= 4,
        ring.first() == ring.last(),
    ensures
        !ring.drop_last().no_duplicates(),
{
    let n = ring.len() as int;
    let round = ring.drop_last();
    if round.no_duplicates() {
        // From the first cell to the second: one step forward, or all the
        // way round backward.
        let short = seq![ring[0], ring[1]];
        let long = Seq::new((n - 1) as nat, |k: int| ring[n - 1 - k]);
        assert(g.passage(ring[0], ring[0int + 1]));
        assert forall|k: int| 0 <= k < short.len() - 1 implies g.passage(#[trigger] short[k], short[k + 1]) by {}
        assert(round[0] != round[1]);
        assert(g.trail(short));
        assert forall|k: int| 0 <= k < long.len() - 1 implies g.passage(#[trigger] long[k], long[k + 1]) by {
            assert(g.passage(ring[n - 2 - k], ring[n - 2 - k + 1]));
        }
        assert forall|i: int, j: int| 0 <= i < long.len() && 0 <= j < long.len() && i != j implies long[i]
            != long[j] by {
            if i == 0 {
                assert(long[0] == round[0]);
                assert(long[j] == round[n - 1 - j]);
            } else if j == 0 {
                assert(long[0] == round[0]);
                assert(long[i] == round[n - 1 - i]);
            } else {
                assert(long[i] == round[n - 1 - i] && long[j] == round[n - 1 - j]);
            }
        }
        assert(g.trail(long));
        assert(short.first() == long.first() && short.last() == long.last());
        assert(short.len() != long.len());
    }
}

} // verus!
