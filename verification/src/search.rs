//! Why the solver finds the path it owes: what holds of a breadth-first
//! search at every step, from the first cell seen to the exit in hand.

use crate::grid::Grid;
use crate::order::{
    earlier, lemma_door_is, lemma_doors_push, lemma_earlier_chain, lemma_earlier_last,
    lemma_earlier_one_way, lemma_earlier_push, lemma_not_earlier_push, parts_at,
};
use vstd::prelude::*;

verus! {

/// The state of a search, with what the proof keeps beside it.
///
/// `seen`, `parent` and `waiting` are the marks, the parent links and the
/// queue of the search. `done` marks the cells whose slots have all been
/// scanned, and `hand` is the cell that is being scanned. For a seen cell,
/// `dist` is the number of steps from the entrance, `ord` its number in the
/// order in which the cells were seen, and `ways` the walk by which it was
/// found. `clock` is the number of seen cells, and `floor` the distance of
/// the cell that was last taken in hand.
pub struct Search {
    pub seen: Seq<bool>,
    pub parent: Map<usize, usize>,
    pub waiting: Seq<usize>,
    pub done: Seq<bool>,
    pub hand: Option<usize>,
    pub dist: Seq<int>,
    pub ord: Seq<int>,
    pub ways: Seq<Seq<usize>>,
    pub clock: int,
    pub floor: int,
}

impl Search {
    /// The search before its first step: the entrance is seen, and waits.
    pub open spec fn start(size: nat) -> Search {
        Search {
            seen: Seq::new(size, |v: int| false).update(0, true),
            parent: Map::empty(),
            waiting: seq![0usize],
            done: Seq::new(size, |v: int| false),
            hand: None,
            dist: Seq::new(size, |v: int| 0int),
            ord: Seq::new(size, |v: int| 0int),
            ways: Seq::new(size, |v: int| seq![0usize]),
            clock: 1,
            floor: 0,
        }
    }

    /// The first waiting cell is taken in hand.
    pub open spec fn take(self) -> Search {
        Search {
            waiting: self.waiting.subrange(1, self.waiting.len() as int),
            hand: Some(self.waiting[0]),
            floor: self.dist[self.waiting[0] as int],
            ..self
        }
    }

    /// `neighbor` is found from the cell in hand: it is seen, and waits.
    pub open spec fn push(self, neighbor: usize) -> Search {
        let current = self.hand.unwrap();
        Search {
            seen: self.seen.update(neighbor as int, true),
            parent: self.parent.insert(neighbor, current),
            waiting: self.waiting.push(neighbor),
            dist: self.dist.update(neighbor as int, self.floor + 1),
            ord: self.ord.update(neighbor as int, self.clock),
            ways: self.ways.update(neighbor as int, self.ways[current as int].push(neighbor)),
            clock: self.clock + 1,
            ..self
        }
    }

    /// The cell in hand is done.
    pub open spec fn finish(self) -> Search {
        Search { done: self.done.update(self.hand.unwrap() as int, true), hand: None, ..self }
    }

    /// The number that the cell in hand has in the order, or else the first
    /// waiting cell: every cell that is done has a lower one.
    pub open spec fn base(self) -> int {
        self.clock - self.waiting.len() - (if self.hand is Some {
            1int
        } else {
            0int
        })
    }
}

/// `way` is the first of the walks of its length from the entrance to `x`:
/// none of them comes before it by the doors it takes.
pub open spec fn first_way(g: Grid, x: usize, way: Seq<usize>) -> bool {
    forall|r: Seq<usize>| #[trigger]
        g.route(0, x, r) && r.len() == way.len() ==> !earlier(g.doors(r), g.doors(way))
}

/// `x` was seen before `y`.
pub open spec fn before(ord: Seq<int>, x: usize, y: usize) -> bool {
    ord[x as int] < ord[y as int]
}

/// What the search has found. The entrance is seen. Every seen cell has its
/// distance, its number, and the walk by which it was found, which is the
/// first of the walks of its length. Every seen cell but the entrance has a
/// parent, seen too, one step nearer, done or in hand, with a passage to the
/// cell; the walk to the cell is the walk to the parent and one step more.
#[verifier::opaque]
pub closed spec fn found(g: Grid, s: Search) -> bool {
    &&& s.seen.len() == g.size()
    &&& s.dist.len() == g.size()
    &&& s.done.len() == g.size()
    &&& s.ord.len() == g.size()
    &&& s.ways.len() == g.size()
    &&& s.seen[0]
    &&& s.dist[0] == 0
    &&& s.ways[0] == seq![0usize]
    &&& forall|v: usize|
        v < g.size() && #[trigger] s.seen[v as int] ==> {
            &&& s.dist[v as int] >= 0
            &&& 0 <= s.ord[v as int] < s.clock
            &&& g.route(0, v, s.ways[v as int])
            &&& s.ways[v as int].len() == s.dist[v as int] + 1
            &&& first_way(g, v, s.ways[v as int])
        }
    &&& forall|v: usize|
        v < g.size() ==> (#[trigger] s.parent.contains_key(v) <==> s.seen[v as int] && v != 0)
    &&& forall|v: usize|
        v < g.size() && #[trigger] s.parent.contains_key(v) ==> {
            &&& s.parent[v] < g.size()
            &&& s.seen[s.parent[v] as int]
            &&& g.passage(s.parent[v], v)
            &&& s.dist[v as int] == s.dist[s.parent[v] as int] + 1
            &&& s.ways[v as int] == s.ways[s.parent[v] as int].push(v)
            &&& s.done[s.parent[v] as int] || s.hand == Some(s.parent[v])
        }
}

/// Where the search stands. The waiting cells are seen and not done, at
/// the distance of `floor` or one step farther, and numbered in a row up to
/// the clock. The cells that are done are no farther than `floor` and have
/// lower numbers; whatever a passage leads to from one of them is seen, at
/// most one step farther. The cell in hand is seen and not done, and comes
/// next after them. And every seen cell is done, waits or is in hand.
#[verifier::opaque]
pub closed spec fn lined(g: Grid, s: Search) -> bool {
    &&& forall|k: int|
        0 <= k < s.waiting.len() ==> {
            &&& (#[trigger] s.waiting[k]) < g.size()
            &&& s.seen[s.waiting[k] as int]
            &&& !s.done[s.waiting[k] as int]
            &&& s.floor <= s.dist[s.waiting[k] as int] <= s.floor + 1
            &&& s.ord[s.waiting[k] as int] == s.clock - s.waiting.len() + k
        }
    &&& forall|u: usize|
        u < g.size() && #[trigger] s.done[u as int] ==> {
            &&& s.seen[u as int]
            &&& s.dist[u as int] <= s.floor
            &&& s.ord[u as int] < s.base()
        }
    &&& s.hand matches Some(c) ==> {
        &&& c < g.size()
        &&& s.seen[c as int]
        &&& !s.done[c as int]
        &&& s.dist[c as int] == s.floor
        &&& s.ord[c as int] == s.base()
    }
    &&& forall|v: usize|
        v < g.size() && #[trigger] s.seen[v as int] ==> s.done[v as int] || s.waiting.contains(v)
            || s.hand == Some(v)
    &&& forall|u: usize, w: usize|
        u < g.size() && w < g.size() && s.done[u as int] && #[trigger] g.passage(u, w)
            ==> s.seen[w as int] && s.dist[w as int] <= s.dist[u as int] + 1
}

/// The order of the search. Of two seen cells the one seen first is no
/// farther than the other, and where they are equally far, its walk comes
/// before the walk of the other.
#[verifier::opaque]
pub closed spec fn sorted(g: Grid, s: Search) -> bool {
    forall|x: usize, y: usize|
        x < g.size() && y < g.size() && #[trigger] before(s.ord, x, y) && s.seen[x as int]
            && s.seen[y as int] ==> {
            &&& s.dist[x as int] <= s.dist[y as int]
            &&& s.dist[x as int] == s.dist[y as int] ==> earlier(
                g.doors(s.ways[x as int]),
                g.doors(s.ways[y as int]),
            )
        }
}

/// The search scans the slots of the cell in hand and has come to slot
/// `upto`: whatever the slots before it lead to through a fallen wall is
/// seen, at most one step farther than the cell, and the cells found from
/// the cell were found through those slots.
#[verifier::opaque]
pub closed spec fn scan(g: Grid, s: Search, upto: int) -> bool {
    &&& s.hand is Some
    &&& forall|i: int, w: usize|
        0 <= i < upto && #[trigger] g.slot_open(s.hand.unwrap(), i, w) ==> s.seen[w as int]
            && s.dist[w as int] <= s.floor + 1
    &&& forall|x: usize|
        x < g.size() && #[trigger] s.parent.contains_key(x) && s.parent[x] == s.hand.unwrap()
            ==> g.door(s.hand.unwrap(), x) < upto
}

/// All that holds of a search between two steps.
pub open spec fn sound(g: Grid, s: Search) -> bool {
    found(g, s) && lined(g, s) && sorted(g, s)
}

/// What is known of the cell in hand.
pub proof fn lemma_hand(g: Grid, s: Search)
    requires
        found(g, s),
        lined(g, s),
        s.hand is Some,
    ensures
        s.hand.unwrap() < g.size(),
        s.seen.len() == g.size(),
        s.done.len() == g.size(),
        s.dist.len() == g.size(),
        s.ord.len() == g.size(),
        s.ways.len() == g.size(),
        s.seen[s.hand.unwrap() as int],
        !s.done[s.hand.unwrap() as int],
        s.dist[s.hand.unwrap() as int] == s.floor,
        s.ord[s.hand.unwrap() as int] == s.base(),
        !s.waiting.contains(s.hand.unwrap()),
{
    reveal(found);
    reveal(lined);
    let c = s.hand.unwrap();
    if s.waiting.contains(c) {
        let k = choose|k: int| 0 <= k < s.waiting.len() && s.waiting[k] == c;
        assert(s.ord[s.waiting[k] as int] == s.clock - s.waiting.len() + k);
    }
}

/// What is known of a parent.
pub proof fn lemma_parent(g: Grid, s: Search, v: usize)
    requires
        found(g, s),
        v < g.size(),
    ensures
        s.seen.len() == g.size(),
        s.seen[0],
        s.parent.contains_key(v) <==> s.seen[v as int] && v != 0,
        s.parent.contains_key(v) ==> s.parent[v] < g.size() && s.seen[s.parent[v] as int] && 0
            <= s.dist[s.parent[v] as int] < s.dist[v as int],
{
    reveal(found);
}

/// Where every seen cell nearer than `limit` is done, a walk from the
/// entrance meets, within `limit` steps, seen cells only, each no farther
/// than the steps taken.
proof fn lemma_within(g: Grid, s: Search, limit: int, q: Seq<usize>, upto: int)
    requires
        found(g, s),
        lined(g, s),
        forall|v: usize|
            v < g.size() && #[trigger] s.seen[v as int] && s.dist[v as int] < limit ==> s.done[v as int],
        g.walk(q),
        q.first() == 0,
        0 <= upto < q.len(),
        upto <= limit,
    ensures
        s.seen[q[upto] as int],
        s.dist[q[upto] as int] <= upto,
    decreases upto,
{
    if upto > 0 {
        lemma_within(g, s, limit, q, upto - 1);
        let u = q[upto - 1];
        let w = q[upto];
        assert(s.done[u as int]);
        assert(g.passage(u, w));
        assert(s.seen[w as int] && s.dist[w as int] <= s.dist[u as int] + 1) by {
            reveal(lined);
        }
    } else {
        reveal(found);
    }
}

/// Every seen cell nearer than the cell in hand is done.
proof fn lemma_nearer_done(g: Grid, s: Search)
    requires
        lined(g, s),
        s.hand is Some,
    ensures
        forall|v: usize|
            v < g.size() && #[trigger] s.seen[v as int] && s.dist[v as int] < s.floor ==> s.done[v as int],
{
    reveal(lined);
    assert forall|v: usize|
        v < g.size() && #[trigger] s.seen[v as int] && s.dist[v as int] < s.floor implies s.done[v as int] by {
        if s.waiting.contains(v) {
            let k = choose|k: int| 0 <= k < s.waiting.len() && s.waiting[k] == v;
            assert(s.dist[s.waiting[k] as int] >= s.floor);
        }
    }
}

/// The search begins.
pub proof fn lemma_start(g: Grid)
    requires
        g.shaped(),
    ensures
        sound(g, Search::start(g.size())),
{
    let s = Search::start(g.size());
    let way = seq![0usize];
    assert(g.route(0, 0, way));
    assert forall|r: Seq<usize>| #[trigger] g.route(0, 0, r) && r.len() == way.len() implies !earlier(
        g.doors(r),
        g.doors(way),
    ) by {
        if earlier(g.doors(r), g.doors(way)) {
            let k = choose|k: int| #[trigger] parts_at(g.doors(r), g.doors(way), k);
        }
    }
    assert(found(g, s)) by {
        reveal(found);
    }
    assert(lined(g, s)) by {
        reveal(lined);
        assert(s.waiting[0] == 0);
        assert forall|v: usize| v < g.size() && #[trigger] s.seen[v as int] implies s.waiting.contains(v) by {
            assert(s.waiting[0] == v);
        }
    }
    assert(sorted(g, s)) by {
        reveal(sorted);
    }
}

/// The search takes the first waiting cell in hand and begins to scan it.
pub proof fn lemma_take(g: Grid, s: Search)
    requires
        sound(g, s),
        s.hand is None,
        s.waiting.len() > 0,
    ensures
        sound(g, s.take()),
        scan(g, s.take(), 0),
{
    let t = s.take();
    let c = s.waiting[0];
    assert(found(g, t)) by {
        reveal(found);
    }
    assert(sorted(g, t)) by {
        reveal(sorted);
    }
    assert(lined(g, t)) by {
        reveal(lined);
        assert forall|k: int| 0 <= k < t.waiting.len() implies {
            &&& (#[trigger] t.waiting[k]) < g.size()
            &&& t.seen[t.waiting[k] as int]
            &&& !t.done[t.waiting[k] as int]
            &&& t.floor <= t.dist[t.waiting[k] as int] <= t.floor + 1
            &&& t.ord[t.waiting[k] as int] == t.clock - t.waiting.len() + k
        } by {
            let v = s.waiting[k + 1];
            assert(t.waiting[k] == v);
            assert(before(s.ord, c, v));
            assert(s.dist[c as int] <= s.dist[v as int]) by {
                reveal(sorted);
            }
        }
        assert forall|v: usize| v < g.size() && #[trigger] t.seen[v as int] implies t.done[v as int]
            || t.waiting.contains(v) || t.hand == Some(v) by {
            if s.waiting.contains(v) {
                let k = choose|k: int| 0 <= k < s.waiting.len() && s.waiting[k] == v;
                if k > 0 {
                    assert(t.waiting[k - 1] == v);
                }
            }
        }
    }
    assert(scan(g, t, 0)) by {
        reveal(scan);
        reveal(found);
        reveal(lined);
    }
}

/// The slot that the scan has come to leads nowhere new.
pub proof fn lemma_skip(g: Grid, s: Search, e: int)
    requires
        sound(g, s),
        s.hand is Some,
        scan(g, s, e),
        forall|w: usize| #[trigger]
            g.slot_open(s.hand.unwrap(), e, w) ==> w < g.size() && s.seen[w as int],
    ensures
        scan(g, s, e + 1),
{
    reveal(scan);
    let c = s.hand.unwrap();
    assert forall|i: int, w: usize| 0 <= i < e + 1 && #[trigger] g.slot_open(c, i, w) implies s.seen[w as int]
        && s.dist[w as int] <= s.floor + 1 by {
        if i == e {
            reveal(lined);
            if s.waiting.contains(w) {
                let k = choose|k: int| 0 <= k < s.waiting.len() && s.waiting[k] == w;
                assert(s.dist[s.waiting[k] as int] <= s.floor + 1);
            }
        }
    }
}

/// The walk to a cell found through slot `e` of the cell in hand: it takes
/// the doors of the walk to that cell and then `e`, and it is the first of
/// the walks of its length.
proof fn lemma_push_way(g: Grid, s: Search, e: int, neighbor: usize)
    requires
        g.shaped(),
        sound(g, s),
        s.hand is Some,
        scan(g, s, e),
        neighbor < g.size(),
        g.slot_open(s.hand.unwrap(), e, neighbor),
        !s.seen[neighbor as int],
    ensures
        g.door(s.hand.unwrap(), neighbor) == e,
        g.route(0, neighbor, s.ways[s.hand.unwrap() as int].push(neighbor)),
        s.ways[s.hand.unwrap() as int].len() == s.floor + 1,
        g.doors(s.ways[s.hand.unwrap() as int].push(neighbor)) == g.doors(
            s.ways[s.hand.unwrap() as int],
        ).push(e),
        first_way(g, neighbor, s.ways[s.hand.unwrap() as int].push(neighbor)),
{
    let current = s.hand.unwrap();
    let here = s.ways[current as int];
    let way = here.push(neighbor);
    let taken = g.doors(here);
    lemma_hand(g, s);
    assert(g.first_open(current, e, neighbor)) by {
        reveal(scan);
        assert forall|j: int| 0 <= j < e implies !g.slot_open(current, j, neighbor) by {}
    }
    lemma_door_is(g, current, e, neighbor);
    assert(g.passage(current, neighbor));
    assert(g.route(0, current, here) && here.len() == s.floor + 1 && first_way(g, current, here)) by {
        reveal(found);
    }
    assert forall|k: int| 0 <= k < way.len() - 1 implies g.passage(#[trigger] way[k], way[k + 1]) by {
        if k < here.len() - 1 {
            assert(way[k] == here[k] && way[k + 1] == here[k + 1]);
            assert(g.passage(here[k], here[k + 1]));
        }
    }
    assert forall|k: int| 0 <= k < way.len() implies (#[trigger] way[k]) < g.size() by {
        if k < here.len() {
            assert(way[k] == here[k]);
        }
    }
    assert(g.route(0, neighbor, way));
    lemma_doors_push(g, here, neighbor);
    lemma_nearer_done(g, s);

    assert forall|r: Seq<usize>| #[trigger] g.route(0, neighbor, r) && r.len() == way.len() implies !earlier(
        g.doors(r),
        g.doors(way),
    ) by {
        let n = r.len() as int;
        let front = r.drop_last();
        let u = r[n - 2];
        assert(g.passage(r[n - 2], r[n - 2 + 1]));
        assert forall|k: int| 0 <= k < front.len() - 1 implies g.passage(#[trigger] front[k], front[k + 1]) by {
            assert(front[k] == r[k] && front[k + 1] == r[k + 1]);
            assert(g.passage(r[k], r[k + 1]));
        }
        assert forall|k: int| 0 <= k < front.len() implies (#[trigger] front[k]) < g.size() by {
            assert(front[k] == r[k]);
        }
        assert(g.route(0, u, front));
        lemma_within(g, s, s.floor, front, n - 2);
        assert(r =~= front.push(neighbor));
        lemma_doors_push(g, front, neighbor);
        lemma_push_rival(g, s, u, neighbor);
        let other = g.doors(s.ways[u as int]);
        assert(!earlier(g.doors(front), other)) by {
            assert(first_way(g, u, s.ways[u as int]));
        }
        if u == current {
            lemma_not_earlier_push(taken, g.doors(front), e);
        } else {
            lemma_earlier_chain(taken, other, g.doors(front));
            lemma_earlier_push(taken, g.doors(front), e, g.door(u, neighbor));
            lemma_earlier_one_way(g.doors(way), g.doors(r));
        }
    }
}

/// A seen cell, no farther than the cell in hand, from which a passage leads
/// to a cell not yet seen: it is the cell in hand, or it waits, as far away,
/// and its walk comes after that of the cell in hand. Either way its walk is
/// the first of its length.
proof fn lemma_push_rival(g: Grid, s: Search, u: usize, neighbor: usize)
    requires
        sound(g, s),
        s.hand is Some,
        u < g.size(),
        neighbor < g.size(),
        s.seen[u as int],
        s.dist[u as int] <= s.floor,
        g.passage(u, neighbor),
        !s.seen[neighbor as int],
    ensures
        s.ways[u as int].len() == s.floor + 1,
        first_way(g, u, s.ways[u as int]),
        u != s.hand.unwrap() ==> earlier(
            g.doors(s.ways[s.hand.unwrap() as int]),
            g.doors(s.ways[u as int]),
        ),
{
    let current = s.hand.unwrap();
    lemma_hand(g, s);
    assert(!s.done[u as int] && (u == current || s.waiting.contains(u))) by {
        reveal(lined);
    }
    if u != current {
        let k = choose|k: int| 0 <= k < s.waiting.len() && s.waiting[k] == u;
        assert(s.ord[s.waiting[k] as int] > s.base() && s.dist[s.waiting[k] as int] >= s.floor) by {
            reveal(lined);
        }
        assert(before(s.ord, current, u));
        assert(earlier(g.doors(s.ways[current as int]), g.doors(s.ways[u as int]))) by {
            reveal(sorted);
        }
    }
    assert(s.ways[u as int].len() == s.floor + 1 && first_way(g, u, s.ways[u as int])) by {
        reveal(found);
    }
}

/// After a cell is found, what the search has found.
proof fn lemma_push_found(g: Grid, s: Search, e: int, neighbor: usize)
    requires
        g.shaped(),
        sound(g, s),
        s.hand is Some,
        scan(g, s, e),
        neighbor < g.size(),
        g.slot_open(s.hand.unwrap(), e, neighbor),
        !s.seen[neighbor as int],
    ensures
        found(g, s.push(neighbor)),
{
    let t = s.push(neighbor);
    let current = s.hand.unwrap();
    lemma_hand(g, s);
    lemma_push_way(g, s, e, neighbor);
    assert(g.passage(current, neighbor));
    reveal(found);
    assert forall|v: usize| v < g.size() && #[trigger] t.seen[v as int] implies {
        &&& t.dist[v as int] >= 0
        &&& 0 <= t.ord[v as int] < t.clock
        &&& g.route(0, v, t.ways[v as int])
        &&& t.ways[v as int].len() == t.dist[v as int] + 1
        &&& first_way(g, v, t.ways[v as int])
    } by {
        if v != neighbor {
            assert(s.seen[v as int]);
        }
    }
    assert forall|v: usize| v < g.size() && #[trigger] t.parent.contains_key(v) implies {
        &&& t.parent[v] < g.size()
        &&& t.seen[t.parent[v] as int]
        &&& g.passage(t.parent[v], v)
        &&& t.dist[v as int] == t.dist[t.parent[v] as int] + 1
        &&& t.ways[v as int] == t.ways[t.parent[v] as int].push(v)
        &&& t.done[t.parent[v] as int] || t.hand == Some(t.parent[v])
    } by {
        if v != neighbor {
            assert(s.parent.contains_key(v));
            assert(s.seen[v as int] && s.seen[s.parent[v] as int]);
        }
    }
}

/// After a cell is found, where the search stands.
proof fn lemma_push_lined(g: Grid, s: Search, neighbor: usize)
    requires
        found(g, s),
        lined(g, s),
        s.hand is Some,
        neighbor < g.size(),
        !s.seen[neighbor as int],
    ensures
        lined(g, s.push(neighbor)),
{
    let t = s.push(neighbor);
    lemma_hand(g, s);
    reveal(lined);
    assert forall|k: int| 0 <= k < t.waiting.len() implies {
        &&& (#[trigger] t.waiting[k]) < g.size()
        &&& t.seen[t.waiting[k] as int]
        &&& !t.done[t.waiting[k] as int]
        &&& t.floor <= t.dist[t.waiting[k] as int] <= t.floor + 1
        &&& t.ord[t.waiting[k] as int] == t.clock - t.waiting.len() + k
    } by {
        if k < s.waiting.len() {
            assert(t.waiting[k] == s.waiting[k]);
            assert(s.seen[s.waiting[k] as int]);
        }
    }
    assert forall|u: usize| u < g.size() && #[trigger] t.done[u as int] implies {
        &&& t.seen[u as int]
        &&& t.dist[u as int] <= t.floor
        &&& t.ord[u as int] < t.base()
    } by {
        assert(s.seen[u as int]);
    }
    assert forall|v: usize| v < g.size() && #[trigger] t.seen[v as int] implies t.done[v as int]
        || t.waiting.contains(v) || t.hand == Some(v) by {
        if v == neighbor {
            assert(t.waiting[s.waiting.len() as int] == v);
        } else {
            assert(s.seen[v as int]);
            if s.waiting.contains(v) {
                let k = choose|k: int| 0 <= k < s.waiting.len() && s.waiting[k] == v;
                assert(t.waiting[k] == v);
            }
        }
    }
    assert forall|u: usize, w: usize|
        u < g.size() && w < g.size() && t.done[u as int] && #[trigger] g.passage(u, w) implies t.seen[w as int]
            && t.dist[w as int] <= t.dist[u as int] + 1 by {
        assert(s.seen[w as int] && s.seen[u as int]);
    }
}

/// Every seen cell lies no farther than one step beyond the cell in hand,
/// and where it lies that far, its parent is done, or is the cell in hand.
proof fn lemma_farthest(g: Grid, s: Search, x: usize)
    requires
        found(g, s),
        lined(g, s),
        s.hand is Some,
        x < g.size(),
        s.seen[x as int],
    ensures
        s.dist[x as int] <= s.floor + 1,
        s.dist[x as int] == s.floor + 1 ==> {
            &&& s.parent.contains_key(x)
            &&& s.parent[x] < g.size()
            &&& s.seen[s.parent[x] as int]
            &&& s.dist[s.parent[x] as int] == s.floor
            &&& s.ways[x as int] == s.ways[s.parent[x] as int].push(x)
            &&& s.ways[s.parent[x] as int].len() >= 1
            &&& s.ways[s.parent[x] as int].last() == s.parent[x]
            &&& s.parent[x] != s.hand.unwrap() ==> before(s.ord, s.parent[x], s.hand.unwrap())
        },
{
    reveal(found);
    reveal(lined);
    if s.waiting.contains(x) {
        let k = choose|k: int| 0 <= k < s.waiting.len() && s.waiting[k] == x;
        assert(s.dist[s.waiting[k] as int] <= s.floor + 1);
    }
    if s.dist[x as int] == s.floor + 1 {
        assert(x != 0);
        assert(s.parent.contains_key(x));
        let px = s.parent[x];
        assert(g.route(0, px, s.ways[px as int]));
    }
}

/// After a cell is found, the order of the search.
proof fn lemma_push_sorted(g: Grid, s: Search, e: int, neighbor: usize)
    requires
        g.shaped(),
        sound(g, s),
        s.hand is Some,
        scan(g, s, e),
        neighbor < g.size(),
        g.slot_open(s.hand.unwrap(), e, neighbor),
        !s.seen[neighbor as int],
    ensures
        sorted(g, s.push(neighbor)),
{
    let t = s.push(neighbor);
    let current = s.hand.unwrap();
    let taken = g.doors(s.ways[current as int]);
    lemma_hand(g, s);
    lemma_push_way(g, s, e, neighbor);
    assert(s.ord.len() == g.size() && s.ways.len() == g.size() && s.dist.len() == g.size()) by {
        reveal(found);
    }
    assert forall|x: usize, y: usize|
        x < g.size() && y < g.size() && #[trigger] before(t.ord, x, y) && t.seen[x as int]
            && t.seen[y as int] implies {
        &&& t.dist[x as int] <= t.dist[y as int]
        &&& t.dist[x as int] == t.dist[y as int] ==> earlier(
            g.doors(t.ways[x as int]),
            g.doors(t.ways[y as int]),
        )
    } by {
        if x == neighbor {
            if y != neighbor {
                assert(s.seen[y as int]);
                assert(s.ord[y as int] < s.clock) by {
                    reveal(found);
                }
            }
            assert(!before(t.ord, x, y));
        } else if y == neighbor {
            assert(s.seen[x as int]);
            lemma_farthest(g, s, x);
            assert(t.dist[x as int] == s.dist[x as int]);
            assert(t.dist[y as int] == s.floor + 1);
            if s.dist[x as int] == s.floor + 1 {
                let px = s.parent[x];
                lemma_doors_push(g, s.ways[px as int], x);
                assert(t.ways[x as int] == s.ways[px as int].push(x));
                assert(g.doors(t.ways[y as int]) == taken.push(e));
                if px == current {
                    assert(g.door(current, x) < e) by {
                        reveal(scan);
                    }
                    lemma_earlier_last(taken, g.door(current, x), e);
                } else {
                    assert(before(s.ord, px, current));
                    assert(earlier(g.doors(s.ways[px as int]), taken)) by {
                        reveal(sorted);
                    }
                    lemma_earlier_push(g.doors(s.ways[px as int]), taken, g.door(px, x), e);
                }
                assert(earlier(g.doors(t.ways[x as int]), g.doors(t.ways[y as int])));
            }
        } else {
            assert(s.seen[x as int] && s.seen[y as int]);
            assert(before(s.ord, x, y));
            assert(t.ways[x as int] == s.ways[x as int] && t.ways[y as int] == s.ways[y as int]);
            assert(t.dist[x as int] == s.dist[x as int] && t.dist[y as int] == s.dist[y as int]);
            reveal(sorted);
        }
    }
    reveal(sorted);
}

/// After a cell is found through slot `e`, the scan has come past that slot.
proof fn lemma_push_scan(g: Grid, s: Search, e: int, neighbor: usize)
    requires
        g.shaped(),
        sound(g, s),
        s.hand is Some,
        scan(g, s, e),
        neighbor < g.size(),
        g.slot_open(s.hand.unwrap(), e, neighbor),
        !s.seen[neighbor as int],
    ensures
        scan(g, s.push(neighbor), e + 1),
{
    let t = s.push(neighbor);
    let current = s.hand.unwrap();
    lemma_hand(g, s);
    lemma_push_way(g, s, e, neighbor);
    reveal(scan);
    assert forall|i: int, w: usize| 0 <= i < e + 1 && #[trigger] g.slot_open(current, i, w) implies t.seen[w as int]
        && t.dist[w as int] <= t.floor + 1 by {
        if i < e {
            assert(s.seen[w as int]);
        }
    }
    assert forall|x: usize|
        x < g.size() && #[trigger] t.parent.contains_key(x) && t.parent[x] == current implies g.door(
        current,
        x,
    ) < e + 1 by {
        if x != neighbor {
            assert(s.parent.contains_key(x));
        }
    }
}

/// The slot `e` that the scan has come to leads through a fallen wall to
/// `neighbor`, not seen before: it is seen now, and waits.
pub proof fn lemma_push(g: Grid, s: Search, e: int, neighbor: usize)
    requires
        g.shaped(),
        sound(g, s),
        s.hand is Some,
        scan(g, s, e),
        neighbor < g.size(),
        g.slot_open(s.hand.unwrap(), e, neighbor),
        !s.seen[neighbor as int],
    ensures
        sound(g, s.push(neighbor)),
        scan(g, s.push(neighbor), e + 1),
{
    lemma_push_found(g, s, e, neighbor);
    lemma_push_lined(g, s, neighbor);
    lemma_push_sorted(g, s, e, neighbor);
    lemma_push_scan(g, s, e, neighbor);
}

/// The scan of the cell in hand has come to its end: the cell is done.
pub proof fn lemma_finish(g: Grid, s: Search)
    requires
        sound(g, s),
        s.hand is Some,
        scan(g, s, g.neighbors[s.hand.unwrap() as int].len() as int),
    ensures
        sound(g, s.finish()),
{
    let t = s.finish();
    let c = s.hand.unwrap();
    lemma_hand(g, s);
    assert(found(g, t)) by {
        reveal(found);
    }
    assert(sorted(g, t)) by {
        reveal(sorted);
    }
    assert(lined(g, t)) by {
        reveal(lined);
        assert forall|k: int| 0 <= k < t.waiting.len() implies !t.done[#[trigger] t.waiting[k] as int] by {
            assert(s.waiting.contains(s.waiting[k]));
        }
        assert forall|u: usize, w: usize|
            u < g.size() && w < g.size() && t.done[u as int] && #[trigger] g.passage(u, w) implies t.seen[w as int]
                && t.dist[w as int] <= t.dist[u as int] + 1 by {
            if u == c {
                let i = choose|i: int| g.slot_open(u, i, w);
                assert(g.slot_open(c, i, w));
                reveal(scan);
            }
        }
    }
}

/// A walk from the entrance, each cell the parent of the next, is the walk
/// by which its last cell was found.
proof fn lemma_found_way(g: Grid, s: Search, p: Seq<usize>, k: int)
    requires
        found(g, s),
        p.len() >= 1,
        p[0] == 0,
        forall|j: int| 0 <= j < p.len() ==> (#[trigger] p[j]) < g.size(),
        forall|j: int|
            0 <= j < p.len() - 1 ==> s.parent.contains_key(#[trigger] p[j + 1]) && s.parent[p[j + 1]]
                == p[j],
        0 <= k < p.len(),
    ensures
        p.subrange(0, k + 1) == s.ways[p[k] as int],
        s.seen[p[k] as int],
        s.dist[p[k] as int] == k,
    decreases k,
{
    reveal(found);
    if k == 0 {
        assert(p.subrange(0, 1) =~= seq![0usize]);
    } else {
        lemma_found_way(g, s, p, k - 1);
        assert(s.parent.contains_key(p[k - 1 + 1]));
        assert(p.subrange(0, k + 1) =~= p.subrange(0, k).push(p[k]));
    }
}

/// When the search takes the exit in hand, the walk from the entrance to the
/// exit along the parents is the path owed.
pub proof fn lemma_exit(g: Grid, s: Search, p: Seq<usize>)
    requires
        sound(g, s),
        s.hand == Some(g.exit()),
        p.len() >= 1,
        p[0] == 0,
        p.last() == g.exit(),
        forall|j: int| 0 <= j < p.len() ==> (#[trigger] p[j]) < g.size(),
        forall|j: int|
            0 <= j < p.len() - 1 ==> s.parent.contains_key(#[trigger] p[j + 1]) && s.parent[p[j + 1]]
                == p[j],
    ensures
        g.solved_by(p),
{
    let end = g.exit();
    let n = p.len() as int;
    lemma_hand(g, s);
    lemma_found_way(g, s, p, n - 1);
    assert(p.subrange(0, n) =~= p);
    assert(g.route(0, end, p) && first_way(g, end, p)) by {
        reveal(found);
    }
    assert forall|i: int, j: int| 0 <= i < n && 0 <= j < n && i != j implies p[i] != p[j] by {
        lemma_found_way(g, s, p, i);
        lemma_found_way(g, s, p, j);
    }
    lemma_nearer_done(g, s);
    assert forall|q: Seq<usize>| #[trigger] g.route(0, end, q) implies p.len() <= q.len() && (q.len()
        == p.len() ==> !earlier(g.doors(q), g.doors(p))) by {
        if q.len() < p.len() {
            lemma_within(g, s, s.floor, q, q.len() - 1);
        }
    }
}

/// When no cell waits and the exit was never in hand, no walk leads from
/// the entrance to the exit, and the exit was never seen.
pub proof fn lemma_no_way(g: Grid, s: Search)
    requires
        g.size() >= 1,
        sound(g, s),
        s.hand is None,
        s.waiting.len() == 0,
        !s.done[g.exit() as int],
    ensures
        !g.connected(0, g.exit()),
        !s.seen[g.exit() as int],
{
    let end = g.exit();
    assert forall|v: usize| v < g.size() && #[trigger] s.seen[v as int] implies s.done[v as int] by {
        reveal(lined);
        assert(!s.waiting.contains(v));
    }
    assert(s.seen.len() == g.size()) by {
        reveal(found);
    }
    assert forall|q: Seq<usize>| !#[trigger] g.route(0, end, q) by {
        if g.route(0, end, q) {
            lemma_within(g, s, q.len() as int, q, q.len() - 1);
        }
    }
}

} // verus!
