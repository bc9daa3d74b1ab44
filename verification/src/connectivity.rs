//! Paths between open cells of a grid, and regions of cells connected by such paths.
use crate::geometry::{is_cardinal_neighbour, is_neighbour, Coord};
use vstd::prelude::*;

verus! {

/// Two cells are adjacent: sharing a side, or when `diagonal` holds sharing a side or a corner.
pub open spec fn adjacent(diagonal: bool, a: Coord, b: Coord) -> bool {
    if diagonal {
        is_neighbour(a, b)
    } else {
        is_cardinal_neighbour(a, b)
    }
}

/// `p` is a non-empty sequence of open cells in which consecutive cells are adjacent.
pub open spec fn is_path(open: spec_fn(Coord) -> bool, diagonal: bool, p: Seq<Coord>) -> bool {
    &&& p.len() > 0
    &&& forall|i: int| 0 <= i < p.len() ==> open(#[trigger] p[i])
    &&& forall|i: int| 0 < i < p.len() ==> adjacent(diagonal, p[i - 1], #[trigger] p[i])
}

/// A path of open cells leads from `a` to `b`.
pub open spec fn reachable(open: spec_fn(Coord) -> bool, diagonal: bool, a: Coord, b: Coord) -> bool {
    exists|p: Seq<Coord>| #[trigger] is_path(open, diagonal, p) && p[0] == a && p.last() == b
}

pub proof fn lemma_reach_refl(open: spec_fn(Coord) -> bool, diagonal: bool, a: Coord)
    requires
        open(a),
    ensures
        reachable(open, diagonal, a, a),
{
    let p = seq![a];
    assert(is_path(open, diagonal, p));
}

/// Both ends of a path are open cells.
pub proof fn lemma_reach_ends_open(open: spec_fn(Coord) -> bool, diagonal: bool, a: Coord, b: Coord)
    requires
        reachable(open, diagonal, a, b),
    ensures
        open(a),
        open(b),
{
    let p = choose|p: Seq<Coord>| #[trigger] is_path(open, diagonal, p) && p[0] == a && p.last() == b;
    assert(open(p[0]));
    assert(open(p[p.len() - 1]));
}

pub proof fn lemma_reach_step(
    open: spec_fn(Coord) -> bool,
    diagonal: bool,
    a: Coord,
    b: Coord,
    n: Coord,
)
    requires
        reachable(open, diagonal, a, b),
        open(n),
        adjacent(diagonal, b, n),
    ensures
        reachable(open, diagonal, a, n),
{
    let p = choose|p: Seq<Coord>| #[trigger] is_path(open, diagonal, p) && p[0] == a && p.last() == b;
    let q = p.push(n);
    assert forall|i: int| 0 <= i < q.len() implies open(#[trigger] q[i]) by {
        if i < p.len() {
            assert(q[i] == p[i]);
        }
    }
    assert forall|i: int| 0 < i < q.len() implies adjacent(diagonal, q[i - 1], #[trigger] q[i]) by {
        if i < p.len() {
            assert(q[i] == p[i]);
            assert(q[i - 1] == p[i - 1]);
        }
    }
    assert(is_path(open, diagonal, q));
}

pub proof fn lemma_reach_sym(open: spec_fn(Coord) -> bool, diagonal: bool, a: Coord, b: Coord)
    requires
        reachable(open, diagonal, a, b),
    ensures
        reachable(open, diagonal, b, a),
{
    let p = choose|p: Seq<Coord>| #[trigger] is_path(open, diagonal, p) && p[0] == a && p.last() == b;
    let q = p.reverse();
    let n = p.len() as int;
    assert forall|i: int| 0 <= i < q.len() implies open(#[trigger] q[i]) by {
        assert(q[i] == p[n - 1 - i]);
    }
    assert forall|i: int| 0 < i < q.len() implies adjacent(diagonal, q[i - 1], #[trigger] q[i]) by {
        assert(q[i] == p[n - 1 - i]);
        assert(q[i - 1] == p[n - i]);
        assert(adjacent(diagonal, p[n - i - 1], p[n - i]));
    }
    assert(is_path(open, diagonal, q));
    assert(q[0] == b);
    assert(q.last() == a);
}

pub proof fn lemma_reach_trans(
    open: spec_fn(Coord) -> bool,
    diagonal: bool,
    a: Coord,
    b: Coord,
    d: Coord,
)
    requires
        reachable(open, diagonal, a, b),
        reachable(open, diagonal, b, d),
    ensures
        reachable(open, diagonal, a, d),
{
    let p1 = choose|p: Seq<Coord>| #[trigger] is_path(open, diagonal, p) && p[0] == a && p.last() == b;
    let p2 = choose|p: Seq<Coord>| #[trigger] is_path(open, diagonal, p) && p[0] == b && p.last() == d;
    let q = p1 + p2.drop_first();
    let n1 = p1.len() as int;
    assert forall|i: int| 0 <= i < q.len() implies open(#[trigger] q[i]) by {
        if i < n1 {
            assert(q[i] == p1[i]);
        } else {
            assert(q[i] == p2[i - n1 + 1]);
        }
    }
    assert forall|i: int| 0 < i < q.len() implies adjacent(diagonal, q[i - 1], #[trigger] q[i]) by {
        if i < n1 {
            assert(q[i] == p1[i]);
            assert(q[i - 1] == p1[i - 1]);
        } else if i == n1 {
            assert(q[i] == p2[1]);
            assert(q[i - 1] == p1[n1 - 1]);
            assert(p2[0] == b);
        } else {
            assert(q[i] == p2[i - n1 + 1]);
            assert(q[i - 1] == p2[i - n1]);
        }
    }
    assert(is_path(open, diagonal, q));
    if p2.len() == 1 {
        assert(q =~= p1);
    } else {
        assert(q.last() == p2.last());
    }
}

/// A set of open cells that contains `a` and every open cell adjacent to one of its cells
/// contains every cell reachable from `a`.
pub proof fn lemma_closed_set_contains_reachable(
    open: spec_fn(Coord) -> bool,
    diagonal: bool,
    set: spec_fn(Coord) -> bool,
    a: Coord,
    b: Coord,
)
    requires
        set(a),
        forall|x: Coord, n: Coord| set(x) && open(n) && #[trigger] adjacent(diagonal, x, n) ==> set(n),
        reachable(open, diagonal, a, b),
    ensures
        set(b),
{
    let p = choose|p: Seq<Coord>| #[trigger] is_path(open, diagonal, p) && p[0] == a && p.last() == b;
    lemma_closed_set_path_prefix(open, diagonal, set, p, p.len() - 1);
}

proof fn lemma_closed_set_path_prefix(
    open: spec_fn(Coord) -> bool,
    diagonal: bool,
    set: spec_fn(Coord) -> bool,
    p: Seq<Coord>,
    k: int,
)
    requires
        is_path(open, diagonal, p),
        set(p[0]),
        0 <= k < p.len(),
        forall|x: Coord, n: Coord| set(x) && open(n) && #[trigger] adjacent(diagonal, x, n) ==> set(n),
    ensures
        set(p[k]),
    decreases k,
{
    if k > 0 {
        lemma_closed_set_path_prefix(open, diagonal, set, p, k - 1);
        assert(adjacent(diagonal, p[k - 1], p[k]));
        assert(open(p[k]));
    }
}

} // verus!
