//! The boat: its outline drawn between the corners of its hull, the deck that the outline
//! encloses around the helm, and where the passengers sit.
use crate::connectivity::{
    adjacent, lemma_closed_set_contains_reachable, lemma_reach_refl, lemma_reach_step, reachable,
};
use crate::data::Npc;
use crate::game::{same_record, Game, MenuChoice};
use crate::geometry::{
    cardinal_delta, cardinal_directions, coord_plus, is_cardinal_neighbour, lemma_cardinal_neighbours,
    CardinalDirection, Coord, Size,
};
use crate::grid::{
    count_true, index_of, lemma_count_true_bound, lemma_count_true_update, lemma_index_bounds,
    size_count, Grid,
};
use crate::random::{seeded_shuffle, shuffle_seeded};
use crate::world2::{coord_in_range, coords_between_cardinal, line_cardinal_coords};
use std::collections::VecDeque;
use vstd::prelude::*;

verus! {

/// The outline of a hull whose eight corners are `v`: the bow `v[0]`, the starboard side
/// `v[1]` to `v[3]`, the stern `v[4]`, and the other side `v[7]` to `v[5]`, each pair of
/// neighbouring corners joined by a line of cardinal steps.
pub open spec fn boat_edge_spec(v: Seq<Coord>) -> Seq<Coord> {
    line_cardinal_coords(v[0], v[1]) + line_cardinal_coords(v[1], v[2]) + line_cardinal_coords(v[2], v[3])
        + line_cardinal_coords(v[3], v[4]) + line_cardinal_coords(v[0], v[7]) + line_cardinal_coords(
        v[7],
        v[6],
    ) + line_cardinal_coords(v[6], v[5]) + line_cardinal_coords(v[5], v[4])
}

fn append(r: &mut Vec<Coord>, s: Vec<Coord>)
    ensures
        final(r)@ == old(r)@ + s@,
{
    let ghost r0 = r@;
    let mut i: usize = 0;
    while i < s.len()
        invariant
            r@ == r0 + s@.take(i as int),
            i <= s@.len(),
        decreases s@.len() - i,
    {
        r.push(s[i]);
        i = i + 1;
        assert(r@ =~= r0 + s@.take(i as int));
    }
    assert(s@.take(s@.len() as int) =~= s@);
}

/// The outline of the hull whose eight corners are `vertices`, relative to the helm.
pub fn boat_edge(vertices: &Vec<Coord>) -> (r: Vec<Coord>)
    requires
        vertices@.len() == 8,
        forall|k: int| 0 <= k < 8 ==> coord_in_range(#[trigger] vertices@[k], -1000, 1000),
    ensures
        r@ == boat_edge_spec(vertices@),
{
    let v = vertices;
    assert(coord_in_range(v@[0], -1000, 1000) && coord_in_range(v@[1], -1000, 1000));
    assert(coord_in_range(v@[2], -1000, 1000) && coord_in_range(v@[3], -1000, 1000));
    assert(coord_in_range(v@[4], -1000, 1000) && coord_in_range(v@[5], -1000, 1000));
    assert(coord_in_range(v@[6], -1000, 1000) && coord_in_range(v@[7], -1000, 1000));
    let mut r: Vec<Coord> = Vec::new();
    append(&mut r, coords_between_cardinal(v[0], v[1]));
    append(&mut r, coords_between_cardinal(v[1], v[2]));
    append(&mut r, coords_between_cardinal(v[2], v[3]));
    append(&mut r, coords_between_cardinal(v[3], v[4]));
    append(&mut r, coords_between_cardinal(v[0], v[7]));
    append(&mut r, coords_between_cardinal(v[7], v[6]));
    append(&mut r, coords_between_cardinal(v[6], v[5]));
    append(&mut r, coords_between_cardinal(v[5], v[4]));
    assert(r@ =~= boat_edge_spec(v@));
    r
}

/// The helm, at the centre of the boat.
pub open spec fn helm() -> Coord {
    Coord { x: 0, y: 0 }
}

/// The cells the deck may spread over: the helm, and every cell off the outline.
pub open spec fn deck_open(edge: Seq<Coord>) -> spec_fn(Coord) -> bool {
    |c: Coord| c == helm() || !edge.contains(c)
}

/// `c` is reached from the helm by steps that share a side without crossing the outline.
pub open spec fn on_deck(edge: Seq<Coord>, c: Coord) -> bool {
    reachable(deck_open(edge), false, helm(), c)
}

/// `c` lies within the bounding box of the outline.
pub open spec fn in_edge_box(edge: Seq<Coord>, c: Coord) -> bool {
    &&& exists|i: int| 0 <= i < edge.len() && (#[trigger] edge[i]).x <= c.x
    &&& exists|i: int| 0 <= i < edge.len() && (#[trigger] edge[i]).x >= c.x
    &&& exists|i: int| 0 <= i < edge.len() && (#[trigger] edge[i]).y <= c.y
    &&& exists|i: int| 0 <= i < edge.len() && (#[trigger] edge[i]).y >= c.y
}

/// Every cell comes before the next in row order of columns: by column, then by row.
pub open spec fn sorted_by_column(v: Seq<Coord>) -> bool {
    forall|i: int, j: int|
        0 <= i < j < v.len() ==> (#[trigger] v[i]).x < (#[trigger] v[j]).x || (v[i].x == v[j].x && v[i].y
            < v[j].y)
}

fn on_edge(edge: &Vec<Coord>, c: Coord) -> (b: bool)
    ensures
        b == edge@.contains(c),
{
    let mut k: usize = 0;
    while k < edge.len()
        invariant
            k <= edge@.len(),
            forall|j: int| 0 <= j < k ==> edge@[j] != c,
        decreases edge@.len() - k,
    {
        if edge[k] == c {
            return true;
        }
        k = k + 1;
    }
    false
}

/// The position of `c` in the grid of the box whose top-left cell is `mn`.
pub open spec fn to_box(c: Coord, mn: Coord) -> Coord {
    Coord { x: (c.x - mn.x) as i32, y: (c.y - mn.y) as i32 }
}

/// `mn` and `mx` are the corners of the bounding box of the outline, all of whose cells lie in
/// `[-1000, 1000]`.
pub open spec fn box_of(edge: Seq<Coord>, mn: Coord, mx: Coord) -> bool {
    &&& forall|k: int| 0 <= k < edge.len() ==> mn.x <= (#[trigger] edge[k]).x <= mx.x && mn.y <= edge[k].y <= mx.y
    &&& exists|i: int| 0 <= i < edge.len() && (#[trigger] edge[i]).x == mn.x
    &&& exists|i: int| 0 <= i < edge.len() && (#[trigger] edge[i]).x == mx.x
    &&& exists|i: int| 0 <= i < edge.len() && (#[trigger] edge[i]).y == mn.y
    &&& exists|i: int| 0 <= i < edge.len() && (#[trigger] edge[i]).y == mx.y
    &&& -1000 <= mn.x <= mx.x <= 1000
    &&& -1000 <= mn.y <= mx.y <= 1000
}

/// `c` lies between the corners `mn` and `mx`.
pub open spec fn between(mn: Coord, mx: Coord, c: Coord) -> bool {
    mn.x <= c.x <= mx.x && mn.y <= c.y <= mx.y
}

proof fn lemma_box(edge: Seq<Coord>, mn: Coord, mx: Coord, c: Coord)
    requires
        box_of(edge, mn, mx),
    ensures
        in_edge_box(edge, c) <==> between(mn, mx, c),
{
    if between(mn, mx, c) {
        let i1 = choose|i: int| 0 <= i < edge.len() && (#[trigger] edge[i]).x == mn.x;
        let i2 = choose|i: int| 0 <= i < edge.len() && (#[trigger] edge[i]).x == mx.x;
        let i3 = choose|i: int| 0 <= i < edge.len() && (#[trigger] edge[i]).y == mn.y;
        let i4 = choose|i: int| 0 <= i < edge.len() && (#[trigger] edge[i]).y == mx.y;
        assert(edge[i1].x <= c.x);
        assert(edge[i2].x >= c.x);
        assert(edge[i3].y <= c.y);
        assert(edge[i4].y >= c.y);
    }
    if in_edge_box(edge, c) {
        let i1 = choose|i: int| 0 <= i < edge.len() && (#[trigger] edge[i]).x <= c.x;
        let i2 = choose|i: int| 0 <= i < edge.len() && (#[trigger] edge[i]).x >= c.x;
        let i3 = choose|i: int| 0 <= i < edge.len() && (#[trigger] edge[i]).y <= c.y;
        let i4 = choose|i: int| 0 <= i < edge.len() && (#[trigger] edge[i]).y >= c.y;
        assert(mn.x <= edge[i1].x);
        assert(edge[i2].x <= mx.x);
        assert(mn.y <= edge[i3].y);
        assert(edge[i4].y <= mx.y);
    }
}

fn edge_box(edge: &Vec<Coord>) -> (r: (Coord, Coord))
    requires
        edge@.len() > 0,
        forall|k: int| 0 <= k < edge@.len() ==> coord_in_range(#[trigger] edge@[k], -1000, 1001),
    ensures
        box_of(edge@, r.0, r.1),
{
    let mut mn = edge[0];
    let mut mx = edge[0];
    assert(coord_in_range(edge@[0], -1000, 1001));
    let mut k: usize = 1;
    while k < edge.len()
        invariant
            1 <= k <= edge@.len(),
            forall|j: int| 0 <= j < edge@.len() ==> coord_in_range(#[trigger] edge@[j], -1000, 1001),
            forall|j: int| 0 <= j < k ==> mn.x <= (#[trigger] edge@[j]).x <= mx.x && mn.y <= edge@[j].y <= mx.y,
            exists|i: int| 0 <= i < k && (#[trigger] edge@[i]).x == mn.x,
            exists|i: int| 0 <= i < k && (#[trigger] edge@[i]).x == mx.x,
            exists|i: int| 0 <= i < k && (#[trigger] edge@[i]).y == mn.y,
            exists|i: int| 0 <= i < k && (#[trigger] edge@[i]).y == mx.y,
        decreases edge@.len() - k,
    {
        let c = edge[k];
        if c.x < mn.x {
            mn = Coord { x: c.x, y: mn.y };
        }
        if c.y < mn.y {
            mn = Coord { x: mn.x, y: c.y };
        }
        if c.x > mx.x {
            mx = Coord { x: c.x, y: mx.y };
        }
        if c.y > mx.y {
            mx = Coord { x: mx.x, y: c.y };
        }
        k = k + 1;
    }
    (mn, mx)
}

/// The grid `seen` has one cell for each cell of the box between `mn` and `mx`.
spec fn box_fits(seen: Grid<bool>, mn: Coord, mx: Coord) -> bool {
    &&& seen.wf()
    &&& seen.spec_size().width == mx.x - mn.x + 1
    &&& seen.spec_size().height == mx.y - mn.y + 1
    &&& -1000 <= mn.x <= mx.x <= 1000
    &&& -1000 <= mn.y <= mx.y <= 1000
}

proof fn lemma_to_box(seen: Grid<bool>, mn: Coord, mx: Coord, c: Coord, d: Coord)
    requires
        box_fits(seen, mn, mx),
        between(mn, mx, c),
    ensures
        seen.contains(to_box(c, mn)),
        between(mn, mx, d) && to_box(d, mn) == to_box(c, mn) ==> d == c,
{
}

/// `after` is `before` with the cell `b` marked.
spec fn marks_one_more(before: Grid<bool>, after: Grid<bool>, b: Coord) -> bool {
    &&& after.wf()
    &&& after.spec_size() == before.spec_size()
    &&& after.at(b)
    &&& forall|d: Coord|
        #![trigger after.at(d)]
        after.contains(d) && d != b ==> after.at(d) == before.at(d)
}

/// Every marked cell is on the deck.
#[verifier::opaque]
spec fn marked_on_deck(seen: Grid<bool>, edge: Seq<Coord>, mn: Coord, mx: Coord) -> bool {
    forall|c: Coord| between(mn, mx, c) && #[trigger] seen.at(to_box(c, mn)) ==> on_deck(edge, c)
}

/// Every cell waiting in `q` lies in the box and is marked.
#[verifier::opaque]
spec fn queue_marked(seen: Grid<bool>, q: Seq<Coord>, mn: Coord, mx: Coord) -> bool {
    forall|j: int| 0 <= j < q.len() ==> between(mn, mx, #[trigger] q[j]) && seen.at(to_box(q[j], mn))
}

/// Every open cell next to `x` lies in the box and is marked.
spec fn neighbours_marked(seen: Grid<bool>, edge: Seq<Coord>, mn: Coord, mx: Coord, x: Coord) -> bool {
    forall|m: Coord|
        #[trigger] is_cardinal_neighbour(x, m) && deck_open(edge)(m) ==> between(mn, mx, m) && seen.at(
            to_box(m, mn),
        )
}

/// Every marked cell that waits neither in `q` nor is `cur` has all its open neighbours marked.
#[verifier::opaque]
spec fn closed_but(
    seen: Grid<bool>,
    q: Seq<Coord>,
    edge: Seq<Coord>,
    mn: Coord,
    mx: Coord,
    cur: Option<Coord>,
) -> bool {
    forall|x: Coord|
        between(mn, mx, x) && #[trigger] seen.at(to_box(x, mn)) && !q.contains(x) && cur != Some(x)
            ==> neighbours_marked(seen, edge, mn, mx, x)
}

/// The neighbour of `c` in the `j`-th cardinal direction.
spec fn neighbour(c: Coord, j: int) -> Coord {
    coord_plus(c, cardinal_delta(cardinal_directions()[j]))
}

/// The open neighbours of `cur` in the first `k` cardinal directions lie in the box and are
/// marked.
#[verifier::opaque]
spec fn first_neighbours_marked(
    seen: Grid<bool>,
    edge: Seq<Coord>,
    mn: Coord,
    mx: Coord,
    cur: Coord,
    k: int,
) -> bool {
    forall|j: int|
        0 <= j < k && deck_open(edge)(#[trigger] neighbour(cur, j)) ==> between(mn, mx, neighbour(cur, j))
            && seen.at(to_box(neighbour(cur, j), mn))
}

proof fn lemma_search_start(seen: Grid<bool>, edge: Seq<Coord>, mn: Coord, mx: Coord, q: Seq<Coord>)
    requires
        box_fits(seen, mn, mx),
        between(mn, mx, helm()),
        seen.at(to_box(helm(), mn)),
        forall|d: Coord| #[trigger] seen.at(d) && seen.contains(d) ==> d == to_box(helm(), mn),
        q == seq![helm()],
    ensures
        marked_on_deck(seen, edge, mn, mx),
        queue_marked(seen, q, mn, mx),
        closed_but(seen, q, edge, mn, mx, None),
{
    reveal(marked_on_deck);
    reveal(queue_marked);
    reveal(closed_but);
    lemma_reach_refl(deck_open(edge), false, helm());
    assert forall|c: Coord| between(mn, mx, c) && #[trigger] seen.at(to_box(c, mn)) implies c == helm() by {
        lemma_to_box(seen, mn, mx, c, helm());
        lemma_to_box(seen, mn, mx, helm(), c);
    }
    assert(q[0] == helm());
}

proof fn lemma_pop(
    seen: Grid<bool>,
    q0: Seq<Coord>,
    q: Seq<Coord>,
    edge: Seq<Coord>,
    mn: Coord,
    mx: Coord,
    cur: Coord,
)
    requires
        q0.len() > 0,
        q == q0.subrange(0, q0.len() - 1),
        cur == q0[q0.len() - 1],
        closed_but(seen, q0, edge, mn, mx, None),
        queue_marked(seen, q0, mn, mx),
    ensures
        closed_but(seen, q, edge, mn, mx, Some(cur)),
        queue_marked(seen, q, mn, mx),
        between(mn, mx, cur),
        seen.at(to_box(cur, mn)),
        first_neighbours_marked(seen, edge, mn, mx, cur, 0),
{
    reveal(closed_but);
    reveal(queue_marked);
    reveal(first_neighbours_marked);
    assert forall|j: int| 0 <= j < q.len() implies between(mn, mx, #[trigger] q[j]) && seen.at(
        to_box(q[j], mn),
    ) by {
        assert(q[j] == q0[j]);
    }
    assert forall|x: Coord|
        between(mn, mx, x) && #[trigger] seen.at(to_box(x, mn)) && !q.contains(x) && Some(cur) != Some(x)
            implies neighbours_marked(seen, edge, mn, mx, x) by {
        if q0.contains(x) {
            let j = choose|j: int| 0 <= j < q0.len() && q0[j] == x;
            if j < q0.len() - 1 {
                assert(q[j] == x);
            }
        }
    }
}

proof fn lemma_mark(
    before: Grid<bool>,
    after: Grid<bool>,
    prev_q: Seq<Coord>,
    q: Seq<Coord>,
    edge: Seq<Coord>,
    mn: Coord,
    mx: Coord,
    cur: Coord,
    k: int,
)
    requires
        box_fits(before, mn, mx),
        0 <= k < 4,
        between(mn, mx, neighbour(cur, k)),
        on_deck(edge, neighbour(cur, k)),
        marks_one_more(before, after, to_box(neighbour(cur, k), mn)),
        q == seq![neighbour(cur, k)] + prev_q,
        marked_on_deck(before, edge, mn, mx),
        queue_marked(before, prev_q, mn, mx),
        closed_but(before, prev_q, edge, mn, mx, Some(cur)),
        first_neighbours_marked(before, edge, mn, mx, cur, k),
    ensures
        box_fits(after, mn, mx),
        marked_on_deck(after, edge, mn, mx),
        queue_marked(after, q, mn, mx),
        closed_but(after, q, edge, mn, mx, Some(cur)),
        first_neighbours_marked(after, edge, mn, mx, cur, k + 1),
{
    reveal(marked_on_deck);
    reveal(queue_marked);
    reveal(closed_but);
    reveal(first_neighbours_marked);
    let nei = neighbour(cur, k);
    assert forall|c: Coord| between(mn, mx, c) && #[trigger] before.at(to_box(c, mn)) implies after.at(
        to_box(c, mn),
    ) by {
        lemma_to_box(before, mn, mx, c, nei);
    }
    assert forall|c: Coord| between(mn, mx, c) && #[trigger] after.at(to_box(c, mn)) implies on_deck(edge, c)
        && (c == nei || before.at(to_box(c, mn))) by {
        lemma_to_box(before, mn, mx, c, nei);
        lemma_to_box(before, mn, mx, nei, c);
    }
    assert forall|j: int| 0 <= j < q.len() implies between(mn, mx, #[trigger] q[j]) && after.at(
        to_box(q[j], mn),
    ) by {
        if j > 0 {
            assert(q[j] == prev_q[j - 1]);
        }
    }
    assert forall|x: Coord|
        between(mn, mx, x) && #[trigger] after.at(to_box(x, mn)) && !q.contains(x) && Some(cur) != Some(x)
            implies neighbours_marked(after, edge, mn, mx, x) by {
        assert(q[0] == nei);
        assert(before.at(to_box(x, mn)));
        if prev_q.contains(x) {
            let j = choose|j: int| 0 <= j < prev_q.len() && prev_q[j] == x;
            assert(q[j + 1] == x);
        }
        assert(neighbours_marked(before, edge, mn, mx, x));
    }
}

proof fn lemma_skip(seen: Grid<bool>, edge: Seq<Coord>, mn: Coord, mx: Coord, cur: Coord, k: int)
    requires
        0 <= k < 4,
        first_neighbours_marked(seen, edge, mn, mx, cur, k),
        deck_open(edge)(neighbour(cur, k)) ==> between(mn, mx, neighbour(cur, k)) && seen.at(
            to_box(neighbour(cur, k), mn),
        ),
    ensures
        first_neighbours_marked(seen, edge, mn, mx, cur, k + 1),
{
    reveal(first_neighbours_marked);
}

proof fn lemma_cur_done(
    seen: Grid<bool>,
    q: Seq<Coord>,
    edge: Seq<Coord>,
    mn: Coord,
    mx: Coord,
    cur: Coord,
)
    requires
        -1000 <= cur.x <= 1001,
        -1000 <= cur.y <= 1001,
        closed_but(seen, q, edge, mn, mx, Some(cur)),
        first_neighbours_marked(seen, edge, mn, mx, cur, 4),
    ensures
        closed_but(seen, q, edge, mn, mx, None),
{
    reveal(closed_but);
    reveal(first_neighbours_marked);
    assert forall|m: Coord| #[trigger] is_cardinal_neighbour(cur, m) && deck_open(edge)(m) implies between(
        mn,
        mx,
        m,
    ) && seen.at(to_box(m, mn)) by {
        lemma_cardinal_neighbours(cur, m);
        let j = choose|j: int| 0 <= j < 4 && m == #[trigger] coord_plus(cur, cardinal_delta(cardinal_directions()[j]));
        assert(m == neighbour(cur, j));
    }
    assert(neighbours_marked(seen, edge, mn, mx, cur));
}

proof fn lemma_search_done(seen: Grid<bool>, edge: Seq<Coord>, mn: Coord, mx: Coord)
    requires
        between(mn, mx, helm()),
        seen.at(to_box(helm(), mn)),
        closed_but(seen, Seq::empty(), edge, mn, mx, None),
        marked_on_deck(seen, edge, mn, mx),
    ensures
        forall|c: Coord| #[trigger] on_deck(edge, c) <==> between(mn, mx, c) && seen.at(to_box(c, mn)),
{
    reveal(closed_but);
    reveal(marked_on_deck);
    let set = |x: Coord| between(mn, mx, x) && seen.at(to_box(x, mn));
    assert forall|x: Coord, m: Coord| set(x) && deck_open(edge)(m) && #[trigger] adjacent(false, x, m) implies set(m) by {
        assert(!Seq::<Coord>::empty().contains(x));
        assert(neighbours_marked(seen, edge, mn, mx, x));
    }
    assert forall|c: Coord| #[trigger] on_deck(edge, c) implies between(mn, mx, c) && seen.at(to_box(c, mn)) by {
        lemma_closed_set_contains_reachable(deck_open(edge), false, set, helm(), c);
    }
}

/// The deck of the boat whose outline is `edge`, relative to the helm: every cell reached from
/// the helm by steps that share a side without crossing the outline, sorted by column then by
/// row. `None` when the outline does not close the deck in, so that the deck would spread
/// without end. The outline must lie within 1000 cells of the helm.
pub fn boat_floor(edge: &Vec<Coord>) -> (r: Option<Vec<Coord>>)
    requires
        forall|k: int| 0 <= k < edge@.len() ==> coord_in_range(#[trigger] edge@[k], -1000, 1001),
    ensures
        r is None <==> exists|c: Coord| #[trigger] on_deck(edge@, c) && !in_edge_box(edge@, c),
        r matches Some(v) ==> sorted_by_column(v@) && forall|c: Coord| v@.contains(c) <==> #[trigger] on_deck(edge@, c),
{
    let origin = Coord { x: 0, y: 0 };
    proof {
        lemma_reach_refl(deck_open(edge@), false, origin);
    }
    if edge.len() == 0 {
        assert(on_deck(edge@, origin) && !in_edge_box(edge@, origin));
        return None;
    }
    let (mn, mx) = edge_box(edge);
    proof {
        lemma_box(edge@, mn, mx, origin);
    }
    if !(mn.x <= 0 && 0 <= mx.x && mn.y <= 0 && 0 <= mx.y) {
        assert(on_deck(edge@, origin) && !in_edge_box(edge@, origin));
        return None;
    }
    let size = Size { width: (mx.x - mn.x + 1) as u32, height: (mx.y - mn.y + 1) as u32 };
    assert(size_count(size) <= 2001 * 2001) by (nonlinear_arith)
        requires
            size.width <= 2001,
            size.height <= 2001,
    ;
    let mut seen = Grid::new_copy(size, false);
    let n = seen.count();
    let start = Coord { x: 0 - mn.x, y: 0 - mn.y };
    let ghost s0 = seen;
    proof {
        lemma_index_bounds(size, start);
        assert(seen.contains(start));
        assert(!seen.at(start));
        lemma_count_true_update(seen.spec_cells(), index_of(size, start));
    }
    seen.set(start, true);
    let mut to_visit: VecDeque<Coord> = VecDeque::new();
    to_visit.push_front(origin);
    proof {
        lemma_count_true_bound(seen.spec_cells());
        assert forall|d: Coord| #[trigger] seen.at(d) && seen.contains(d) implies d == to_box(helm(), mn) by {
            if d != start {
                assert(s0.contains(d));
                assert(!s0.at(d));
            }
        }
        lemma_search_start(seen, edge@, mn, mx, to_visit@);
    }
    let directions = CardinalDirection::all();
    while to_visit.len() > 0
        invariant
            box_fits(seen, mn, mx),
            seen.spec_size() == size,
            box_of(edge@, mn, mx),
            n == size_count(size),
            origin == helm(),
            between(mn, mx, origin),
            seen.at(to_box(origin, mn)),
            directions@ == cardinal_directions(),
            count_true(seen.spec_cells()) <= n,
            marked_on_deck(seen, edge@, mn, mx),
            queue_marked(seen, to_visit@, mn, mx),
            closed_but(seen, to_visit@, edge@, mn, mx, None),
        decreases n - count_true(seen.spec_cells()), to_visit@.len(),
    {
        let ghost q0 = to_visit@;
        let cur = to_visit.pop_back().unwrap();
        let ghost q_after_pop = to_visit@;
        let ghost seen_at_pop = seen;
        proof {
            lemma_pop(seen, q0, to_visit@, edge@, mn, mx, cur);
            reveal(marked_on_deck);
            assert(on_deck(edge@, cur));
        }
        let mut k: usize = 0;
        while k < 4
            invariant
                box_fits(seen, mn, mx),
                seen.spec_size() == size,
                box_of(edge@, mn, mx),
                n == size_count(size),
                origin == helm(),
                between(mn, mx, origin),
                seen.at(to_box(origin, mn)),
                directions@ == cardinal_directions(),
                0 <= k <= 4,
                between(mn, mx, cur),
                on_deck(edge@, cur),
                count_true(seen.spec_cells()) <= n,
                count_true(seen.spec_cells()) >= count_true(seen_at_pop.spec_cells()),
                count_true(seen.spec_cells()) == count_true(seen_at_pop.spec_cells()) ==> to_visit@ == q_after_pop,
                marked_on_deck(seen, edge@, mn, mx),
                queue_marked(seen, to_visit@, mn, mx),
                closed_but(seen, to_visit@, edge@, mn, mx, Some(cur)),
                first_neighbours_marked(seen, edge@, mn, mx, cur, k as int),
            decreases 4 - k,
        {
            let nei = cur.plus(directions[k].coord());
            assert(nei == neighbour(cur, k as int));
            let inside = mn.x <= nei.x && nei.x <= mx.x && mn.y <= nei.y && nei.y <= mx.y;
            if !inside {
                proof {
                    lemma_cardinal_neighbours(cur, nei);
                    lemma_box(edge@, mn, mx, nei);
                    assert(!edge@.contains(nei)) by {
                        if edge@.contains(nei) {
                            let j = choose|j: int| 0 <= j < edge@.len() && edge@[j] == nei;
                            assert(mn.x <= edge@[j].x <= mx.x);
                        }
                    }
                    assert(deck_open(edge@)(nei));
                    lemma_reach_step(deck_open(edge@), false, origin, cur, nei);
                    assert(on_deck(edge@, nei) && !in_edge_box(edge@, nei));
                }
                return None;
            }
            let b = Coord { x: nei.x - mn.x, y: nei.y - mn.y };
            proof {
                lemma_to_box(seen, mn, mx, nei, nei);
            }
            let is_open = nei == origin || !on_edge(edge, nei);
            if is_open && !*seen.get_checked(b) {
                let ghost before = seen;
                let ghost prev_q = to_visit@;
                proof {
                    lemma_index_bounds(size, b);
                    lemma_count_true_update(seen.spec_cells(), index_of(size, b));
                    lemma_cardinal_neighbours(cur, nei);
                    lemma_reach_step(deck_open(edge@), false, origin, cur, nei);
                }
                seen.set(b, true);
                to_visit.push_front(nei);
                proof {
                    lemma_count_true_bound(seen.spec_cells());
                    lemma_to_box(before, mn, mx, origin, origin);
                    lemma_mark(before, seen, prev_q, to_visit@, edge@, mn, mx, cur, k as int);
                }
            } else {
                proof {
                    lemma_skip(seen, edge@, mn, mx, cur, k as int);
                }
            }
            k = k + 1;
        }
        proof {
            lemma_cur_done(seen, to_visit@, edge@, mn, mx, cur);
        }
    }
    proof {
        assert(to_visit@ =~= Seq::<Coord>::empty());
        lemma_search_done(seen, edge@, mn, mx);
        assert forall|c: Coord| #[trigger] on_deck(edge@, c) implies in_edge_box(edge@, c) by {
            lemma_box(edge@, mn, mx, c);
        }
    }
    let mut r: Vec<Coord> = Vec::new();
    let w = size.width;
    let h = size.height;
    let mut x: u32 = 0;
    while x < w
        invariant
            seen.wf(),
            seen.spec_size() == size,
            w == size.width,
            h == size.height,
            size.width == mx.x - mn.x + 1,
            size.height == mx.y - mn.y + 1,
            box_of(edge@, mn, mx),
            x <= w,
            sorted_by_column(r@),
            forall|i: int| 0 <= i < r@.len() ==> (#[trigger] r@[i]).x < mn.x + x,
            forall|c: Coord|
                #![trigger r@.contains(c)]
                #![trigger seen.at(to_box(c, mn))]
                r@.contains(c) <==> (between(mn, mx, c) && c.x < mn.x + x && seen.at(to_box(c, mn))),
            forall|c: Coord| #[trigger] on_deck(edge@, c) <==> between(mn, mx, c) && seen.at(to_box(c, mn)),
        decreases w - x,
    {
        let mut y: u32 = 0;
        while y < h
            invariant
                seen.wf(),
                seen.spec_size() == size,
                w == size.width,
                h == size.height,
                size.width == mx.x - mn.x + 1,
                size.height == mx.y - mn.y + 1,
                box_of(edge@, mn, mx),
                x < w,
                y <= h,
                sorted_by_column(r@),
                forall|i: int|
                    0 <= i < r@.len() ==> (#[trigger] r@[i]).x < mn.x + x || (r@[i].x == mn.x + x && r@[i].y < mn.y
                        + y),
                forall|c: Coord|
                    #![trigger r@.contains(c)]
                    #![trigger seen.at(to_box(c, mn))]
                    r@.contains(c) <==> (between(mn, mx, c) && (c.x < mn.x + x || (c.x == mn.x + x && c.y < mn.y + y))
                        && seen.at(to_box(c, mn))),
            decreases h - y,
        {
            let b = Coord { x: x as i32, y: y as i32 };
            let c = Coord { x: mn.x + x as i32, y: mn.y + y as i32 };
            assert(to_box(c, mn) == b);
            let ghost r0 = r@;
            if *seen.get_checked(b) {
                r.push(c);
                proof {
                    assert forall|d: Coord|
                        #![trigger r@.contains(d)]
                        #![trigger seen.at(to_box(d, mn))]
                        r@.contains(d) <==> (between(mn, mx, d) && (d.x < mn.x + x || (d.x == mn.x
                        + x && d.y < mn.y + y + 1)) && seen.at(to_box(d, mn))) by {
                        if r@.contains(d) && d != c {
                            let j = choose|j: int| 0 <= j < r@.len() && r@[j] == d;
                            assert(r0[j] == d);
                        }
                        if d == c {
                            assert(r@[r0.len() as int] == c);
                        }
                        if r0.contains(d) {
                            let j = choose|j: int| 0 <= j < r0.len() && r0[j] == d;
                            assert(r@[j] == d);
                        }
                    }
                }
            } else {
                proof {
                    assert forall|d: Coord|
                        #![trigger r@.contains(d)]
                        #![trigger seen.at(to_box(d, mn))]
                        r@.contains(d) <==> (between(mn, mx, d) && (d.x < mn.x + x || (d.x == mn.x
                        + x && d.y < mn.y + y + 1)) && seen.at(to_box(d, mn))) by {
                        if d.x == mn.x + x && d.y == mn.y + y {
                            assert(d == c);
                        }
                    }
                }
            }
            y = y + 1;
        }
        proof {
            assert forall|c: Coord|
                #![trigger r@.contains(c)]
                #![trigger seen.at(to_box(c, mn))]
                r@.contains(c) <==> (between(mn, mx, c) && c.x < mn.x + x + 1 && seen.at(to_box(c, mn))) by {
                if between(mn, mx, c) && c.x == mn.x + x {
                    assert(c.y < mn.y + h);
                }
            }
        }
        x = x + 1;
    }
    proof {
        assert forall|c: Coord| r@.contains(c) <==> #[trigger] on_deck(edge@, c) by {
            if on_deck(edge@, c) {
                assert(between(mn, mx, c) && seen.at(to_box(c, mn)));
            }
        }
    }
    Some(r)
}

/// The cells of the deck other than the helm, in order.
pub fn floor_without_helm(floor: &Vec<Coord>) -> (r: Vec<Coord>)
    ensures
        r@ == floor@.filter(|c: Coord| c != helm()),
{
    let mut r: Vec<Coord> = Vec::new();
    let mut k: usize = 0;
    while k < floor.len()
        invariant
            k <= floor@.len(),
            r@ == floor@.take(k as int).filter(|c: Coord| c != helm()),
        decreases floor@.len() - k,
    {
        let c = floor[k];
        assert(floor@.take(k + 1) =~= floor@.take(k as int).push(c));
        proof {
            floor@.take(k as int).lemma_filter_push(c, |c: Coord| c != helm());
        }
        if !(c.x == 0 && c.y == 0) {
            r.push(c);
        }
        k = k + 1;
    }
    assert(floor@.take(floor@.len() as int) =~= floor@);
    r
}

/// Where the passengers sit: the deck cells (the helm left out) are shuffled by a generator
/// seeded with `seat_seed`, and each passenger in turn takes the last cell left, while any is.
/// The same deck, seed and passengers always give the same seating.
pub fn seat_passengers(deck: &Vec<Coord>, seat_seed: u64, passengers: &Vec<Npc>) -> (r: Vec<(Coord, Npc)>)
    ensures
        r@.len() == if passengers@.len() < deck@.len() {
            passengers@.len() as int
        } else {
            deck@.len() as int
        },
        seeded_shuffle(seat_seed, deck@).to_multiset() == deck@.to_multiset(),
        seeded_shuffle(seat_seed, deck@).len() == deck@.len(),
        forall|i: int|
            0 <= i < r@.len() ==> r@[i] == ({
                let s = seeded_shuffle(seat_seed, deck@);
                (s[s.len() - 1 - i], passengers@[i])
            }),
{
    let mut cells = deck.clone();
    assert(cells@ =~= deck@);
    shuffle_seeded(seat_seed, &mut cells);
    let ghost s = cells@;
    let mut r: Vec<(Coord, Npc)> = Vec::new();
    let mut k: usize = 0;
    while k < passengers.len()
        invariant
            k <= passengers@.len(),
            s.len() == deck@.len(),
            r@.len() == if (k as int) < s.len() { k as int } else { s.len() as int },
            cells@ == s.take(s.len() - r@.len()),
            forall|i: int| 0 <= i < r@.len() ==> r@[i] == (s[s.len() - 1 - i], passengers@[i]),
        decreases passengers@.len() - k,
    {
        if let Some(c) = cells.pop() {
            proof {
                assert(c == s[s.len() - 1 - r@.len()]);
                assert(cells@ =~= s.take(s.len() - r@.len() - 1));
            }
            r.push((c, passengers[k]));
        }
        k = k + 1;
    }
    r
}


/// The cells of `v` without repeats, each where it first occurs.
pub open spec fn distinct_seq(v: Seq<Coord>) -> Seq<Coord>
    decreases v.len(),
{
    if v.len() == 0 {
        Seq::empty()
    } else {
        let r = distinct_seq(v.drop_last());
        if r.contains(v.last()) {
            r
        } else {
            r.push(v.last())
        }
    }
}

proof fn lemma_distinct_seq(v: Seq<Coord>)
    ensures
        distinct_seq(v).no_duplicates(),
        forall|c: Coord| distinct_seq(v).contains(c) <==> v.contains(c),
    decreases v.len(),
{
    if v.len() > 0 {
        let w = v.drop_last();
        lemma_distinct_seq(w);
        let r = distinct_seq(w);
        assert forall|c: Coord| distinct_seq(v).contains(c) <==> v.contains(c) by {
            if v.contains(c) {
                let i = choose|i: int| 0 <= i < v.len() && v[i] == c;
                if i < v.len() - 1 {
                    assert(w[i] == c);
                    assert(w.contains(c));
                    assert(r.contains(c));
                    let j = choose|j: int| 0 <= j < r.len() && r[j] == c;
                    if !r.contains(v.last()) {
                        assert(r.push(v.last())[j] == c);
                    }
                } else {
                    assert(c == v.last());
                    if !r.contains(v.last()) {
                        assert(r.push(v.last())[r.len() as int] == v.last());
                    }
                }
                assert(distinct_seq(v).contains(c));
            }
            if distinct_seq(v).contains(c) {
                if r.contains(c) {
                    assert(w.contains(c));
                    let i = choose|i: int| 0 <= i < w.len() && w[i] == c;
                    assert(v[i] == c);
                } else {
                    assert(c == v.last());
                    assert(v[v.len() - 1] == c);
                }
            }
        }
        if !r.contains(v.last()) {
            let r2 = r.push(v.last());
            assert forall|i: int, j: int| 0 <= i < r2.len() && 0 <= j < r2.len() && i != j implies r2[i] != r2[j] by {
                if i < r.len() && j < r.len() {
                    assert(r2[i] == r[i] && r2[j] == r[j]);
                } else if i == r.len() {
                    assert(r2[j] == r[j]);
                    assert(r.contains(r[j]));
                } else {
                    assert(r2[i] == r[i]);
                    assert(r.contains(r[i]));
                }
            }
        }
    }
}

/// The cells of `v` without repeats, each where it first occurs.
pub fn distinct_coords(v: &Vec<Coord>) -> (r: Vec<Coord>)
    ensures
        r@ == distinct_seq(v@),
        r@.no_duplicates(),
        forall|c: Coord| r@.contains(c) <==> v@.contains(c),
{
    let mut r: Vec<Coord> = Vec::new();
    let mut k: usize = 0;
    while k < v.len()
        invariant
            k <= v@.len(),
            r@ == distinct_seq(v@.take(k as int)),
        decreases v@.len() - k,
    {
        let c = v[k];
        assert(v@.take(k + 1).drop_last() =~= v@.take(k as int));
        assert(v@.take(k + 1).last() == c);
        if !on_edge(&r, c) {
            r.push(c);
        }
        k = k + 1;
    }
    assert(v@.take(v@.len() as int) =~= v@);
    proof {
        lemma_distinct_seq(v@);
    }
    r
}

/// What the world holds, other than the boat itself, at a cell that the boat would cover: a
/// floor, and a feature.
#[derive(Clone, Copy, Debug, PartialEq, Eq, Structural)]
pub struct Occupancy {
    pub foreign_floor: bool,
    pub foreign_feature: bool,
}

/// The cells of `cells` whose occupancy (same position in `occ`) has a foreign floor exactly
/// when `foreign` holds, in order.
pub open spec fn split_by_floor(cells: Seq<Coord>, occ: Seq<Occupancy>, foreign: bool) -> Seq<Coord>
    decreases cells.len(),
{
    if cells.len() == 0 {
        Seq::empty()
    } else {
        let rest = split_by_floor(cells.drop_last(), occ, foreign);
        if occ[cells.len() - 1].foreign_floor == foreign {
            rest.push(cells.last())
        } else {
            rest
        }
    }
}

/// Where the boat goes: the outline cells that stay edge, the outline cells that become boards
/// (over a floor that is not the boat's), and the deck cells other than the helm.
pub struct BoatPlan {
    pub edge: Vec<Coord>,
    pub boards: Vec<Coord>,
    pub floor: Vec<Coord>,
}

/// The boat can go where the world holds no foreign floor under its deck and no foreign
/// feature on its outline; then each outline cell over a foreign floor becomes a board and
/// the others stay edge, and the deck cells other than the helm are floor. `None` when the
/// boat cannot go there. `edge_occupancy` and `floor_occupancy` hold what the world has at the
/// outline cells and at the deck cells, in the same order.
pub fn plan_boat(
    edge: &Vec<Coord>,
    edge_occupancy: &Vec<Occupancy>,
    floor: &Vec<Coord>,
    floor_occupancy: &Vec<Occupancy>,
) -> (r: Option<BoatPlan>)
    requires
        edge_occupancy@.len() == edge@.len(),
        floor_occupancy@.len() == floor@.len(),
    ensures
        r is None <==> (exists|i: int| 0 <= i < floor@.len() && (#[trigger] floor_occupancy@[i]).foreign_floor)
            || (exists|i: int| 0 <= i < edge@.len() && (#[trigger] edge_occupancy@[i]).foreign_feature),
        r matches Some(p) ==> {
            &&& p.boards@ == split_by_floor(edge@, edge_occupancy@, true)
            &&& p.edge@ == split_by_floor(edge@, edge_occupancy@, false)
            &&& p.floor@ == floor@.filter(|c: Coord| c != helm())
        },
{
    let mut k: usize = 0;
    while k < floor.len()
        invariant
            k <= floor@.len(),
            floor_occupancy@.len() == floor@.len(),
            forall|i: int| 0 <= i < k ==> !(#[trigger] floor_occupancy@[i]).foreign_floor,
        decreases floor@.len() - k,
    {
        if floor_occupancy[k].foreign_floor {
            return None;
        }
        k = k + 1;
    }
    let mut boards: Vec<Coord> = Vec::new();
    let mut rest: Vec<Coord> = Vec::new();
    let mut k: usize = 0;
    while k < edge.len()
        invariant
            k <= edge@.len(),
            edge_occupancy@.len() == edge@.len(),
            forall|i: int| 0 <= i < floor@.len() ==> !(#[trigger] floor_occupancy@[i]).foreign_floor,
            forall|i: int| 0 <= i < k ==> !(#[trigger] edge_occupancy@[i]).foreign_feature,
            boards@ == split_by_floor(edge@.take(k as int), edge_occupancy@, true),
            rest@ == split_by_floor(edge@.take(k as int), edge_occupancy@, false),
        decreases edge@.len() - k,
    {
        let o = edge_occupancy[k];
        if o.foreign_feature {
            return None;
        }
        assert(edge@.take(k + 1).drop_last() =~= edge@.take(k as int));
        assert(edge@.take(k + 1).last() == edge@[k as int]);
        if o.foreign_floor {
            boards.push(edge[k]);
        } else {
            rest.push(edge[k]);
        }
        k = k + 1;
    }
    assert(edge@.take(edge@.len() as int) =~= edge@);
    let deck = floor_without_helm(floor);
    Some(BoatPlan { edge: rest, boards, floor: deck })
}


/// The outline and the deck of a boat, relative to the helm.
pub struct BoatShape {
    pub edge: Vec<Coord>,
    pub floor: Vec<Coord>,
}

/// Every cell of `v` lies within 1000 cells of the helm.
pub open spec fn near_helm(v: Seq<Coord>) -> bool {
    forall|k: int| 0 <= k < v.len() ==> coord_in_range(#[trigger] v[k], -1000, 1001)
}

fn all_near_helm(v: &Vec<Coord>) -> (b: bool)
    ensures
        b == near_helm(v@),
{
    let mut k: usize = 0;
    while k < v.len()
        invariant
            k <= v@.len(),
            forall|i: int| 0 <= i < k ==> coord_in_range(#[trigger] v@[i], -1000, 1001),
        decreases v@.len() - k,
    {
        let c = v[k];
        if !(-1000 <= c.x && c.x < 1001 && -1000 <= c.y && c.y < 1001) {
            assert(!coord_in_range(v@[k as int], -1000, 1001));
            return false;
        }
        k = k + 1;
    }
    true
}

/// The shape of the boat whose eight corners, turned to its heading, are `vertices`: the cells
/// of its outline without repeats, in the order they are drawn, and its deck. `None` when the
/// outline strays more than 1000 cells from the helm or does not close the deck in.
pub fn boat_shape(vertices: &Vec<Coord>) -> (r: Option<BoatShape>)
    requires
        vertices@.len() == 8,
        forall|k: int| 0 <= k < 8 ==> coord_in_range(#[trigger] vertices@[k], -1000, 1000),
    ensures
        r is None <==> !near_helm(boat_edge_spec(vertices@)) || exists|c: Coord|
            #[trigger] on_deck(boat_edge_spec(vertices@), c) && !in_edge_box(boat_edge_spec(vertices@), c),
        r matches Some(s) ==> {
            &&& s.edge@ == distinct_seq(boat_edge_spec(vertices@))
            &&& sorted_by_column(s.floor@)
            &&& forall|c: Coord| s.floor@.contains(c) <==> #[trigger] on_deck(boat_edge_spec(vertices@), c)
        },
{
    let edge = boat_edge(vertices);
    if !all_near_helm(&edge) {
        return None;
    }
    match boat_floor(&edge) {
        None => None,
        Some(floor) => {
            let edge = distinct_coords(&edge);
            Some(BoatShape { edge, floor })
        },
    }
}

/// A boat placed by the game: what goes where, and where each passenger sits.
pub struct BoatPlacement {
    pub plan: BoatPlan,
    pub seats: Vec<(Coord, Npc)>,
}

impl Game {
    /// Places the boat of shape `shape` where the world holds, at its outline cells and deck
    /// cells, what `edge_occupancy` and `floor_occupancy` say: `None` when a foreign floor lies
    /// under the deck or a foreign feature on the outline; otherwise the plan of `plan_boat`,
    /// and the passengers seated on the deck cells other than the helm, shuffled by a
    /// generator seeded with the game's seating seed, each taking the last cell left. The game
    /// itself is left as it is, so the same game and world always seat the passengers alike.
    /// Makes a menu's choice and places the boat again: a passenger who was offered a seat
    /// (`npc`, the passenger that the chosen entity stands for) comes on board, and the boat of
    /// shape `shape` is placed with the passengers as they now are. The world must leave room
    /// for the boat (no foreign floor under its deck, no foreign feature on its outline), as it
    /// does where the boat already stands.
    pub fn handle_choice(
        &mut self,
        choice: MenuChoice,
        npc: Npc,
        shape: &BoatShape,
        edge_occupancy: &Vec<Occupancy>,
        floor_occupancy: &Vec<Occupancy>,
    ) -> (p: BoatPlacement)
        requires
            edge_occupancy@.len() == shape.edge@.len(),
            floor_occupancy@.len() == shape.floor@.len(),
            forall|i: int| 0 <= i < shape.floor@.len() ==> !(#[trigger] floor_occupancy@[i]).foreign_floor,
            forall|i: int| 0 <= i < shape.edge@.len() ==> !(#[trigger] edge_occupancy@[i]).foreign_feature,
        ensures
            final(self).passengers@ == if choice is AddNpcToPassengers {
                old(self).passengers@.push(npc)
            } else {
                old(self).passengers@
            },
            final(self).num_seats == old(self).num_seats,
            final(self).driving == old(self).driving,
            final(self).rng == old(self).rng,
            final(self).seat_rng_seed == old(self).seat_rng_seed,
            final(self).has_been_on_boat == old(self).has_been_on_boat,
            final(self).has_crossed_threshold == old(self).has_crossed_threshold,
            final(self).has_talked_to_npc == old(self).has_talked_to_npc,
            same_record(*old(self), *final(self)),
            p.plan.boards@ == split_by_floor(shape.edge@, edge_occupancy@, true),
            p.plan.edge@ == split_by_floor(shape.edge@, edge_occupancy@, false),
            p.plan.floor@ == shape.floor@.filter(|c: Coord| c != helm()),
            p.seats@.len() == if final(self).passengers@.len() < p.plan.floor@.len() {
                final(self).passengers@.len() as int
            } else {
                p.plan.floor@.len() as int
            },
            forall|i: int|
                0 <= i < p.seats@.len() ==> p.seats@[i] == ({
                    let s = seeded_shuffle(final(self).seat_rng_seed, p.plan.floor@);
                    (s[s.len() - 1 - i], final(self).passengers@[i])
                }),
    {
        match choice {
            MenuChoice::AddNpcToPassengers(_) => self.add_npc_to_passengers(npc),
            _ => {},
        }
        match self.try_rasterize_boat(shape, edge_occupancy, floor_occupancy) {
            Some(p) => p,
            None => {
                proof {
                    assert(false);
                }
                BoatPlacement { plan: BoatPlan { edge: Vec::new(), boards: Vec::new(), floor: Vec::new() }, seats: Vec::new() }
            },
        }
    }

    pub fn try_rasterize_boat(
        &self,
        shape: &BoatShape,
        edge_occupancy: &Vec<Occupancy>,
        floor_occupancy: &Vec<Occupancy>,
    ) -> (r: Option<BoatPlacement>)
        requires
            edge_occupancy@.len() == shape.edge@.len(),
            floor_occupancy@.len() == shape.floor@.len(),
        ensures
            r is None <==> (exists|i: int| 0 <= i < shape.floor@.len() && (#[trigger] floor_occupancy@[i]).foreign_floor)
                || (exists|i: int| 0 <= i < shape.edge@.len() && (#[trigger] edge_occupancy@[i]).foreign_feature),
            r matches Some(p) ==> {
                &&& p.plan.boards@ == split_by_floor(shape.edge@, edge_occupancy@, true)
                &&& p.plan.edge@ == split_by_floor(shape.edge@, edge_occupancy@, false)
                &&& p.plan.floor@ == shape.floor@.filter(|c: Coord| c != helm())
                &&& p.seats@.len() == if self.passengers@.len() < p.plan.floor@.len() {
                    self.passengers@.len() as int
                } else {
                    p.plan.floor@.len() as int
                }
                &&& forall|i: int|
                    0 <= i < p.seats@.len() ==> p.seats@[i] == ({
                        let s = seeded_shuffle(self.seat_rng_seed, p.plan.floor@);
                        (s[s.len() - 1 - i], self.passengers@[i])
                    })
            },
    {
        match plan_boat(&shape.edge, edge_occupancy, &shape.floor, floor_occupancy) {
            None => None,
            Some(plan) => {
                let seats = seat_passengers(&plan.floor, self.seat_rng_seed, &self.passengers);
                Some(BoatPlacement { plan, seats })
            },
        }
    }
}

} // verus!
