//! The order in which the solver tells equally short walks apart: by the
//! slots they take, the earlier slot first at the first step where they part.

use crate::grid::Grid;
use vstd::prelude::*;

verus! {

/// At place `k` the sequence `a` holds less than `b` does, and before it
/// both hold the same.
pub open spec fn parts_at(a: Seq<int>, b: Seq<int>, k: int) -> bool {
    &&& 0 <= k < a.len()
    &&& k < b.len()
    &&& a[k] < b[k]
    &&& forall|j: int| 0 <= j < k ==> a[j] == b[j]
}

/// `a` comes before `b`: where the two first differ, `a` holds less.
pub open spec fn earlier(a: Seq<int>, b: Seq<int>) -> bool {
    exists|k: int| #[trigger] parts_at(a, b, k)
}

/// Of two sequences of one length, one comes before the other, or they are
/// the same.
pub proof fn lemma_earlier_or_same(a: Seq<int>, b: Seq<int>)
    requires
        a.len() == b.len(),
    ensures
        a == b || earlier(a, b) || earlier(b, a),
    decreases a.len(),
{
    if a.len() == 0 {
        assert(a =~= b);
    } else {
        let n = a.len() as int;
        let short_a = a.drop_last();
        let short_b = b.drop_last();
        lemma_earlier_or_same(short_a, short_b);
        if earlier(short_a, short_b) {
            let k = choose|k: int| #[trigger] parts_at(short_a, short_b, k);
            assert forall|j: int| 0 <= j < k implies a[j] == b[j] by {
                assert(short_a[j] == short_b[j]);
            }
            assert(short_a[k] == a[k] && short_b[k] == b[k]);
            assert(parts_at(a, b, k));
        } else if earlier(short_b, short_a) {
            let k = choose|k: int| #[trigger] parts_at(short_b, short_a, k);
            assert forall|j: int| 0 <= j < k implies b[j] == a[j] by {
                assert(short_a[j] == short_b[j]);
            }
            assert(short_a[k] == a[k] && short_b[k] == b[k]);
            assert(parts_at(b, a, k));
        } else {
            assert forall|j: int| 0 <= j < n - 1 implies a[j] == b[j] by {
                assert(short_a[j] == short_b[j]);
            }
            if a[n - 1] < b[n - 1] {
                assert(parts_at(a, b, n - 1));
            } else if b[n - 1] < a[n - 1] {
                assert(parts_at(b, a, n - 1));
            } else {
                assert(a =~= b);
            }
        }
    }
}

/// If `a` comes before `b`, then `b` does not come before `a`.
pub proof fn lemma_earlier_one_way(a: Seq<int>, b: Seq<int>)
    requires
        earlier(a, b),
    ensures
        !earlier(b, a),
{
    if earlier(b, a) {
        let k = choose|k: int| #[trigger] parts_at(a, b, k);
        let m = choose|m: int| #[trigger] parts_at(b, a, m);
        if m < k {
            assert(a[m] == b[m]);
        } else if k < m {
            assert(b[k] == a[k]);
        }
    }
}

/// If `a` comes before `b`, and `c` does not come before `b`, then `a` comes
/// before `c`.
pub proof fn lemma_earlier_chain(a: Seq<int>, b: Seq<int>, c: Seq<int>)
    requires
        a.len() == b.len(),
        b.len() == c.len(),
        earlier(a, b),
        !earlier(c, b),
    ensures
        earlier(a, c),
{
    lemma_earlier_or_same(b, c);
    if b != c {
        let k = choose|k: int| #[trigger] parts_at(a, b, k);
        let m = choose|m: int| #[trigger] parts_at(b, c, m);
        if m < k {
            assert(a[m] == b[m]);
            assert forall|j: int| 0 <= j < m implies a[j] == c[j] by {
                assert(a[j] == b[j] && b[j] == c[j]);
            }
            assert(parts_at(a, c, m));
        } else {
            assert forall|j: int| 0 <= j < k implies a[j] == c[j] by {
                assert(a[j] == b[j] && b[j] == c[j]);
            }
            if k < m {
                assert(b[k] == c[k]);
            }
            assert(parts_at(a, c, k));
        }
    }
}

/// What comes before stays before when both grow at the end.
pub proof fn lemma_earlier_push(a: Seq<int>, b: Seq<int>, x: int, y: int)
    requires
        earlier(a, b),
    ensures
        earlier(a.push(x), b.push(y)),
{
    let k = choose|k: int| #[trigger] parts_at(a, b, k);
    assert(a.push(x)[k] == a[k] && b.push(y)[k] == b[k]);
    assert forall|j: int| 0 <= j < k implies a.push(x)[j] == b.push(y)[j] by {
        assert(a[j] == b[j]);
    }
    assert(parts_at(a.push(x), b.push(y), k));
}

/// Of one sequence grown by two numbers, the one grown by the lesser comes
/// before.
pub proof fn lemma_earlier_last(a: Seq<int>, x: int, y: int)
    requires
        x < y,
    ensures
        earlier(a.push(x), a.push(y)),
{
    assert(parts_at(a.push(x), a.push(y), a.len() as int));
}

/// If `b` does not come before `a`, it does not when both grow by the same
/// number.
pub proof fn lemma_not_earlier_push(a: Seq<int>, b: Seq<int>, e: int)
    requires
        a.len() == b.len(),
        !earlier(b, a),
    ensures
        !earlier(b.push(e), a.push(e)),
{
    if earlier(b.push(e), a.push(e)) {
        let k = choose|k: int| #[trigger] parts_at(b.push(e), a.push(e), k);
        if k < a.len() {
            assert(b.push(e)[k] == b[k] && a.push(e)[k] == a[k]);
            assert forall|j: int| 0 <= j < k implies b[j] == a[j] by {
                assert(b.push(e)[j] == a.push(e)[j]);
            }
            assert(parts_at(b, a, k));
        }
    }
}

/// Where there is a passage from `a` to `b`, up to slot `i`, there is a first
/// slot through which one can step from `a` into `b`.
proof fn lemma_first_open_exists(g: Grid, a: usize, b: usize, i: int)
    requires
        g.slot_open(a, i, b),
    ensures
        exists|j: int| g.first_open(a, j, b),
    decreases i,
{
    if exists|j: int| 0 <= j < i && g.slot_open(a, j, b) {
        let j = choose|j: int| 0 <= j < i && g.slot_open(a, j, b);
        lemma_first_open_exists(g, a, b, j);
    } else {
        assert(g.first_open(a, i, b));
    }
}

/// Where there is a passage from `a` to `b`, the door from `a` to `b` is the
/// first slot through which one can step from the one into the other.
pub proof fn lemma_door(g: Grid, a: usize, b: usize)
    requires
        g.passage(a, b),
    ensures
        g.first_open(a, g.door(a, b), b),
{
    let i = choose|i: int| g.slot_open(a, i, b);
    lemma_first_open_exists(g, a, b, i);
}

/// The first open slot from `a` to `b` is the door.
pub proof fn lemma_door_is(g: Grid, a: usize, i: int, b: usize)
    requires
        g.first_open(a, i, b),
    ensures
        g.door(a, b) == i,
{
    let d = g.door(a, b);
    assert(g.first_open(a, d, b));
    if d < i {
        assert(!g.slot_open(a, d, b));
    }
    if i < d {
        assert(!g.slot_open(a, i, b));
    }
}

/// A walk that grows by a cell takes one more door, the one into that cell.
pub proof fn lemma_doors_push(g: Grid, p: Seq<usize>, b: usize)
    requires
        p.len() >= 1,
    ensures
        g.doors(p.push(b)) == g.doors(p).push(g.door(p.last(), b)),
{
    let longer = p.push(b);
    assert forall|k: int| 0 <= k < p.len() implies #[trigger] g.doors(longer)[k] == g.doors(p).push(
        g.door(p.last(), b),
    )[k] by {
        assert(longer[k] == p[k]);
        if k < p.len() - 1 {
            assert(longer[k + 1] == p[k + 1]);
        }
    }
    assert(g.doors(longer) =~= g.doors(p).push(g.door(p.last(), b)));
}

/// Two walks from one cell that take the same doors are the same walk.
pub proof fn lemma_same_doors(g: Grid, p: Seq<usize>, q: Seq<usize>, upto: int)
    requires
        g.walk(p),
        g.walk(q),
        p.first() == q.first(),
        p.len() == q.len(),
        g.doors(p) == g.doors(q),
        0 <= upto < p.len(),
    ensures
        p[upto] == q[upto],
    decreases upto,
{
    if upto > 0 {
        lemma_same_doors(g, p, q, upto - 1);
        let a = p[upto - 1];
        assert(g.passage(a, p[upto - 1 + 1]));
        assert(g.passage(q[upto - 1], q[upto - 1 + 1]));
        lemma_door(g, a, p[upto]);
        lemma_door(g, a, q[upto]);
        assert(g.doors(p)[upto - 1] == g.door(a, p[upto]));
        assert(g.doors(q)[upto - 1] == g.door(a, q[upto]));
    }
}

} // verus!
