use vstd::prelude::*;
use crate::count::{sum_grid, lemma_sum_grid_point, lemma_sum_grid_zero};
use crate::data::{Dir, pos_int, step, opposite};

verus! {

/// Whether `p` names a cell of the grid `g` (indexed `g[x][y]`).
pub open spec fn in_grid(g: Seq<Vec<bool>>, p: (int, int)) -> bool {
    0 <= p.0 < g.len() && 0 <= p.1 < g[p.0]@.len()
}

/// Whether `p` is a cell of `g` that holds no wall.
pub open spec fn cell_open(g: Seq<Vec<bool>>, p: (int, int)) -> bool {
    in_grid(g, p) && !g[p.0]@[p.1]
}

/// `g` has `w` columns of `h` cells each.
pub open spec fn grid_wf(g: Seq<Vec<bool>>, w: int, h: int) -> bool {
    g.len() == w && forall|i: int| 0 <= i < w ==> (#[trigger] g[i])@.len() == h
}

/// Two cells that share a side.
pub open spec fn adjacent(a: (int, int), b: (int, int)) -> bool {
    (a.0 == b.0 && (a.1 + 1 == b.1 || b.1 + 1 == a.1)) || (a.1 == b.1 && (a.0 + 1 == b.0 || b.0
        + 1 == a.0))
}

/// A walk through open cells of `g`, one side-to-side step at a time.
pub open spec fn is_path(g: Seq<Vec<bool>>, path: Seq<(int, int)>) -> bool {
    &&& path.len() > 0
    &&& forall|i: int| 0 <= i < path.len() ==> cell_open(g, #[trigger] path[i])
    &&& forall|i: int| 0 <= i < path.len() - 1 ==> adjacent(#[trigger] path[i], path[i + 1])
}

/// Some walk through open cells leads from `a` to `b`.
pub open spec fn reachable(g: Seq<Vec<bool>>, a: (int, int), b: (int, int)) -> bool {
    exists|path: Seq<(int, int)>| #[trigger] is_path(g, path) && path[0] == a && path.last() == b
}

/// Every open cell of `g` can be reached from `s`.
pub open spec fn connected_from(g: Seq<Vec<bool>>, s: (int, int)) -> bool {
    forall|p: (int, int)| #[trigger] cell_open(g, p) ==> reachable(g, s, p)
}

/// The number of walls in one column.
pub open spec fn row_walls(r: Seq<bool>) -> nat
    decreases r.len(),
{
    if r.len() == 0 {
        0
    } else {
        row_walls(r.drop_last()) + if r.last() {
            1nat
        } else {
            0nat
        }
    }
}

/// The number of walls in the grid.
pub open spec fn grid_walls(g: Seq<Vec<bool>>) -> nat
    decreases g.len(),
{
    if g.len() == 0 {
        0
    } else {
        grid_walls(g.drop_last()) + row_walls(g.last()@)
    }
}

pub(crate) proof fn lemma_row_walls_update(r: Seq<bool>, y: int)
    requires
        0 <= y < r.len(),
        r[y],
    ensures
        row_walls(r.update(y, false)) + 1 == row_walls(r),
    decreases r.len(),
{
    let r2 = r.update(y, false);
    if y == r.len() - 1 {
        assert(r2.drop_last() =~= r.drop_last());
    } else {
        assert(r2.drop_last() =~= r.drop_last().update(y, false));
        lemma_row_walls_update(r.drop_last(), y);
    }
}

pub(crate) proof fn lemma_grid_walls_same(g: Seq<Vec<bool>>, g2: Seq<Vec<bool>>)
    requires
        g2.len() == g.len(),
        forall|i: int| 0 <= i < g.len() ==> (#[trigger] g2[i])@ == g[i]@,
    ensures
        grid_walls(g2) == grid_walls(g),
    decreases g.len(),
{
    if g.len() > 0 {
        lemma_grid_walls_same(g.drop_last(), g2.drop_last());
    }
}

/// What clearing the wall at `(x, y)` does: exactly that cell becomes open, and
/// the wall count drops by one where it was a wall.
pub(crate) proof fn lemma_carve(g: Seq<Vec<bool>>, g2: Seq<Vec<bool>>, x: int, y: int)
    requires
        0 <= x < g.len(),
        0 <= y < g[x]@.len(),
        g2.len() == g.len(),
        forall|i: int| 0 <= i < g.len() && i != x ==> (#[trigger] g2[i])@ == g[i]@,
        g2[x]@ == g[x]@.update(y, false),
    ensures
        forall|p: (int, int)| #[trigger] cell_open(g2, p) <==> (cell_open(g, p) || p == (x, y)),
        g[x]@[y] ==> grid_walls(g2) + 1 == grid_walls(g),
        !g[x]@[y] ==> grid_walls(g2) == grid_walls(g),
    decreases g.len(),
{
    if !g[x]@[y] {
        assert(g2[x]@ =~= g[x]@);
        lemma_grid_walls_same(g, g2);
    } else if x == g.len() - 1 {
        lemma_grid_walls_same(g.drop_last(), g2.drop_last());
        lemma_row_walls_update(g[x]@, y);
    } else {
        lemma_carve(g.drop_last(), g2.drop_last(), x, y);
        assert(g2.last()@ == g.last()@);
    }
}

/// Walks through open cells stay walks when more cells open.
pub(crate) proof fn lemma_path_persists(g: Seq<Vec<bool>>, g2: Seq<Vec<bool>>, path: Seq<(int, int)>)
    requires
        is_path(g, path),
        forall|p: (int, int)| cell_open(g, p) ==> #[trigger] cell_open(g2, p),
    ensures
        is_path(g2, path),
{
    assert forall|i: int| 0 <= i < path.len() implies cell_open(g2, #[trigger] path[i]) by {
        assert(cell_open(g, path[i]));
    }
}

/// Opening a cell next to a reachable open cell keeps every open cell reachable.
pub(crate) proof fn lemma_carve_keeps_connected(
    g: Seq<Vec<bool>>,
    g2: Seq<Vec<bool>>,
    s: (int, int),
    c: (int, int),
    q: (int, int),
)
    requires
        connected_from(g, s),
        cell_open(g, q),
        adjacent(q, c),
        forall|p: (int, int)| #[trigger] cell_open(g2, p) <==> (cell_open(g, p) || p == c),
    ensures
        connected_from(g2, s),
{
    assert forall|p: (int, int)| #[trigger] cell_open(g2, p) implies reachable(g2, s, p) by {
        if cell_open(g, p) {
            assert(reachable(g, s, p));
            let path = choose|path: Seq<(int, int)>|
                #[trigger] is_path(g, path) && path[0] == s && path.last() == p;
            lemma_path_persists(g, g2, path);
        } else {
            assert(p == c);
            assert(reachable(g, s, q));
            let path = choose|path: Seq<(int, int)>|
                #[trigger] is_path(g, path) && path[0] == s && path.last() == q;
            lemma_path_persists(g, g2, path);
            let np = path.push(c);
            assert forall|i: int| 0 <= i < np.len() implies cell_open(g2, #[trigger] np[i]) by {
                if i < path.len() {
                    assert(np[i] == path[i]);
                }
            }
            assert forall|i: int| 0 <= i < np.len() - 1 implies adjacent(
                #[trigger] np[i],
                np[i + 1],
            ) by {
                if i < path.len() - 1 {
                    assert(np[i] == path[i] && np[i + 1] == path[i + 1]);
                }
            }
            assert(is_path(g2, np));
            assert(np[0] == s);
        }
    }
}

/// Clears the wall at `(x, y)`.
pub(crate) fn carve(walls: &mut Vec<Vec<bool>>, x: usize, y: usize)
    requires
        x < old(walls)@.len(),
        y < old(walls)@[x as int]@.len(),
    ensures
        final(walls)@.len() == old(walls)@.len(),
        forall|i: int|
            0 <= i < old(walls)@.len() && i != x ==> (#[trigger] final(walls)@[i])@ == old(
                walls,
            )@[i]@,
        final(walls)@[x as int]@ == old(walls)@[x as int]@.update(y as int, false),
{
    walls[x][y] = false;
}

/// One for an open cell, zero otherwise.
pub open spec fn open_ind(g: Seq<Vec<bool>>, x: int, y: int) -> int {
    if cell_open(g, (x, y)) {
        1
    } else {
        0
    }
}

/// The pairs of open cells that share a side and have `(x, y)` as their
/// west or south member.
pub open spec fn edge_ind(g: Seq<Vec<bool>>, x: int, y: int) -> int {
    (if cell_open(g, (x, y)) && cell_open(g, (x + 1, y)) {
        1int
    } else {
        0int
    }) + (if cell_open(g, (x, y)) && cell_open(g, (x, y + 1)) {
        1int
    } else {
        0int
    })
}

/// The number of open cells in the `w` by `h` grid.
pub open spec fn open_count(g: Seq<Vec<bool>>, w: int, h: int) -> int {
    sum_grid(|x: int, y: int| open_ind(g, x, y), w, h)
}

/// The number of pairs of open cells that share a side in the `w` by `h` grid.
pub open spec fn open_edges(g: Seq<Vec<bool>>, w: int, h: int) -> int {
    sum_grid(|x: int, y: int| edge_ind(g, x, y), w, h)
}

/// How many of the four neighbours of `c` are open.
pub open spec fn open_neighbours(g: Seq<Vec<bool>>, c: (int, int)) -> int {
    open_ind(g, c.0 + 1, c.1) + open_ind(g, c.0 - 1, c.1) + open_ind(g, c.0, c.1 + 1) + open_ind(
        g,
        c.0,
        c.1 - 1,
    )
}

/// A grid without open cells has neither open cells nor open pairs to count.
pub(crate) proof fn lemma_counts_closed(g: Seq<Vec<bool>>, w: int, h: int)
    requires
        forall|p: (int, int)| !#[trigger] cell_open(g, p),
    ensures
        open_count(g, w, h) == 0,
        open_edges(g, w, h) == 0,
{
    let f = |x: int, y: int| open_ind(g, x, y);
    let e = |x: int, y: int| edge_ind(g, x, y);
    assert forall|a: int, b: int| #[trigger] f(a, b) == 0 by {
        assert(!cell_open(g, (a, b)));
    }
    assert forall|a: int, b: int| #[trigger] e(a, b) == 0 by {
        assert(!cell_open(g, (a, b)));
    }
    lemma_sum_grid_zero(f, w, h);
    lemma_sum_grid_zero(e, w, h);
}

/// Opening the closed cell `c` adds one open cell, and as many open pairs as
/// `c` had open neighbours.
pub(crate) proof fn lemma_carve_counts(g: Seq<Vec<bool>>, g2: Seq<Vec<bool>>, c: (int, int), w: int, h: int)
    requires
        grid_wf(g, w, h),
        0 <= c.0 < w,
        0 <= c.1 < h,
        !cell_open(g, c),
        forall|p: (int, int)| #[trigger] cell_open(g2, p) <==> (cell_open(g, p) || p == c),
    ensures
        open_count(g2, w, h) == open_count(g, w, h) + 1,
        open_edges(g2, w, h) == open_edges(g, w, h) + open_neighbours(g, c),
{
    let f = |x: int, y: int| open_ind(g, x, y);
    let f2 = |x: int, y: int| open_ind(g2, x, y);
    assert forall|a: int, b: int| (a, b) != c implies #[trigger] f2(a, b) == f(a, b) by {
        assert(cell_open(g2, (a, b)) == cell_open(g, (a, b)));
    }
    assert(cell_open(g2, c));
    lemma_sum_grid_point(f, f2, w, h, c);

    let left = (c.0 - 1, c.1);
    let below = (c.0, c.1 - 1);
    let e0 = |x: int, y: int| edge_ind(g, x, y);
    let e1 = |x: int, y: int|
        if (x, y) == c {
            edge_ind(g2, x, y)
        } else {
            edge_ind(g, x, y)
        };
    let e2 = |x: int, y: int|
        if (x, y) == c || (x, y) == left {
            edge_ind(g2, x, y)
        } else {
            edge_ind(g, x, y)
        };
    let e3 = |x: int, y: int| edge_ind(g2, x, y);
    assert forall|a: int, b: int| (a, b) != c implies #[trigger] e1(a, b) == e0(a, b) by {}
    lemma_sum_grid_point(e0, e1, w, h, c);
    assert forall|a: int, b: int| (a, b) != left implies #[trigger] e2(a, b) == e1(a, b) by {}
    lemma_sum_grid_point(e1, e2, w, h, left);
    assert forall|a: int, b: int| (a, b) != below implies #[trigger] e3(a, b) == e2(a, b) by {
        if (a, b) != c && (a, b) != left {
            assert(cell_open(g2, (a, b)) == cell_open(g, (a, b)));
            assert(cell_open(g2, (a + 1, b)) == cell_open(g, (a + 1, b)));
            assert(cell_open(g2, (a, b + 1)) == cell_open(g, (a, b + 1)));
        }
    }
    lemma_sum_grid_point(e2, e3, w, h, below);
    assert(cell_open(g2, (c.0 + 1, c.1)) == cell_open(g, (c.0 + 1, c.1)));
    assert(cell_open(g2, (c.0, c.1 + 1)) == cell_open(g, (c.0, c.1 + 1)));
    assert(cell_open(g2, left) == cell_open(g, left));
    assert(cell_open(g2, below) == cell_open(g, below));
    assert(cell_open(g2, (left.0, left.1 + 1)) == cell_open(g, (left.0, left.1 + 1)));
    assert(cell_open(g2, (below.0 + 1, below.1)) == cell_open(g, (below.0 + 1, below.1)));
}

/// A cell at even offsets from `s` on both axes: where generation puts rooms.
pub open spec fn is_room(s: (int, int), p: (int, int)) -> bool {
    (p.0 - s.0) % 2 == 0 && (p.1 - s.1) % 2 == 0
}

/// A cell at odd offsets from `s` on both axes: generation never opens one.
pub open spec fn is_pillar(s: (int, int), p: (int, int)) -> bool {
    (p.0 - s.0) % 2 != 0 && (p.1 - s.1) % 2 != 0
}

/// Every neighbour of `p` that is a room inside the grid is open.
pub open spec fn sides_open(g: Seq<Vec<bool>>, s: (int, int), p: (int, int)) -> bool {
    &&& (in_grid(g, (p.0 + 1, p.1)) && is_room(s, (p.0 + 1, p.1))) ==> cell_open(g, (p.0 + 1, p.1))
    &&& (in_grid(g, (p.0 - 1, p.1)) && is_room(s, (p.0 - 1, p.1))) ==> cell_open(g, (p.0 - 1, p.1))
    &&& (in_grid(g, (p.0, p.1 + 1)) && is_room(s, (p.0, p.1 + 1))) ==> cell_open(g, (p.0, p.1 + 1))
    &&& (in_grid(g, (p.0, p.1 - 1)) && is_room(s, (p.0, p.1 - 1))) ==> cell_open(g, (p.0, p.1 - 1))
}

/// The shape that generation keeps: open pairs number one less than open cells,
/// no pillar is open, and every open cell that is not a room opens onto each
/// room beside it.
#[verifier::opaque]
pub open spec fn tree_shape(g: Seq<Vec<bool>>, s: (int, int), w: int, h: int) -> bool {
    &&& open_edges(g, w, h) + 1 == open_count(g, w, h)
    &&& forall|p: (int, int)|
        #[trigger] cell_open(g, p) ==> !is_pillar(s, p) && (is_room(s, p) || sides_open(g, s, p))
}

/// Each frontier cell lies between rooms: it is no room, and the cell behind it is.
pub open spec fn frontier_rooms(s: (int, int), f: Seq<(usize, usize, Dir)>) -> bool {
    forall|k: int|
        0 <= k < f.len() ==> {
            let e = #[trigger] f[k];
            &&& !is_room(s, pos_int((e.0, e.1)))
            &&& is_room(s, step(pos_int((e.0, e.1)), opposite(e.2)))
        }
}

/// Opening more cells keeps the rooms beside a cell open.
pub(crate) proof fn lemma_sides_open_grow(g: Seq<Vec<bool>>, g2: Seq<Vec<bool>>, s: (int, int), w: int, h: int, p: (int, int))
    requires
        grid_wf(g, w, h),
        grid_wf(g2, w, h),
        sides_open(g, s, p),
        forall|q: (int, int)| cell_open(g, q) ==> #[trigger] cell_open(g2, q),
    ensures
        sides_open(g2, s, p),
{
    let qs = seq![(p.0 + 1, p.1), (p.0 - 1, p.1), (p.0, p.1 + 1), (p.0, p.1 - 1)];
    assert forall|i: int| 0 <= i < 4 && in_grid(g2, #[trigger] qs[i]) implies in_grid(g, qs[i]) by {
        let q = qs[i];
        {
            assert(g2[q.0]@.len() == h);
            assert(g[q.0]@.len() == h);
        }
    }
    assert(in_grid(g2, qs[0]) ==> in_grid(g, qs[0]));
    assert(in_grid(g2, qs[1]) ==> in_grid(g, qs[1]));
    assert(in_grid(g2, qs[2]) ==> in_grid(g, qs[2]));
    assert(in_grid(g2, qs[3]) ==> in_grid(g, qs[3]));
}

/// Opening a frontier cell whose far side lies outside the grid keeps the shape.
pub(crate) proof fn lemma_tree_carve_stub(
    g: Seq<Vec<bool>>,
    g2: Seq<Vec<bool>>,
    s: (int, int),
    w: int,
    h: int,
    c: (int, int),
    d: Dir,
)
    requires
        grid_wf(g, w, h),
        grid_wf(g2, w, h),
        tree_shape(g, s, w, h),
        0 <= c.0 < w,
        0 <= c.1 < h,
        !is_room(s, c),
        is_room(s, step(c, opposite(d))),
        cell_open(g, step(c, opposite(d))),
        !in_grid(g, step(c, d)),
        forall|p: (int, int)| #[trigger] cell_open(g2, p) <==> (cell_open(g, p) || p == c),
    ensures
        tree_shape(g2, s, w, h),
{
    reveal(tree_shape);    let f = |x: int, y: int| open_ind(g, x, y);
    let f2 = |x: int, y: int| open_ind(g2, x, y);
    let e = |x: int, y: int| edge_ind(g, x, y);
    let e2 = |x: int, y: int| edge_ind(g2, x, y);
    if cell_open(g, c) {
        assert forall|a: int, b: int| (a, b) != (-1int, -1int) implies #[trigger] f2(a, b) == f(
            a,
            b,
        ) by {
            assert(cell_open(g2, (a, b)) == cell_open(g, (a, b)));
        }
        lemma_sum_grid_point(f, f2, w, h, (-1, -1));
        assert forall|a: int, b: int| (a, b) != (-1int, -1int) implies #[trigger] e2(a, b) == e(
            a,
            b,
        ) by {
            assert(cell_open(g2, (a, b)) == cell_open(g, (a, b)));
            assert(cell_open(g2, (a + 1, b)) == cell_open(g, (a + 1, b)));
            assert(cell_open(g2, (a, b + 1)) == cell_open(g, (a, b + 1)));
        }
        lemma_sum_grid_point(e, e2, w, h, (-1, -1));
    } else {
        lemma_carve_counts(g, g2, c, w, h);
        let b = step(c, opposite(d));
        match d {
            Dir::N => {
                assert(is_pillar(s, (c.0 + 1, c.1)) && is_pillar(s, (c.0 - 1, c.1)));
                assert(!cell_open(g, (c.0 + 1, c.1)) && !cell_open(g, (c.0 - 1, c.1)));
            },
            Dir::S => {
                assert(is_pillar(s, (c.0 + 1, c.1)) && is_pillar(s, (c.0 - 1, c.1)));
                assert(!cell_open(g, (c.0 + 1, c.1)) && !cell_open(g, (c.0 - 1, c.1)));
            },
            Dir::E => {
                assert(is_pillar(s, (c.0, c.1 + 1)) && is_pillar(s, (c.0, c.1 - 1)));
                assert(!cell_open(g, (c.0, c.1 + 1)) && !cell_open(g, (c.0, c.1 - 1)));
            },
            Dir::W => {
                assert(is_pillar(s, (c.0, c.1 + 1)) && is_pillar(s, (c.0, c.1 - 1)));
                assert(!cell_open(g, (c.0, c.1 + 1)) && !cell_open(g, (c.0, c.1 - 1)));
            },
        }
        assert(open_neighbours(g, c) == 1);
    }
    assert forall|p: (int, int)| #[trigger] cell_open(g2, p) implies !is_pillar(s, p) && (is_room(
        s,
        p,
    ) || sides_open(g2, s, p)) by {
        if cell_open(g, p) {
            if !is_room(s, p) {
                lemma_sides_open_grow(g, g2, s, w, h, p);
            }
        } else {
            assert(p == c);
            assert(cell_open(g2, step(c, opposite(d))));
            assert(!in_grid(g2, step(c, d))) by {
                if in_grid(g2, step(c, d)) {
                    assert(g2[step(c, d).0]@.len() == h);
                    assert(g[step(c, d).0]@.len() == h);
                }
            }
        }
    }
}

/// Opening a frontier cell and the room beyond it, both closed, keeps the shape.
pub(crate) proof fn lemma_tree_carve_passage(
    g0: Seq<Vec<bool>>,
    g1: Seq<Vec<bool>>,
    g2: Seq<Vec<bool>>,
    s: (int, int),
    w: int,
    h: int,
    c: (int, int),
    d: Dir,
)
    requires
        grid_wf(g0, w, h),
        grid_wf(g1, w, h),
        grid_wf(g2, w, h),
        tree_shape(g0, s, w, h),
        0 <= c.0 < w,
        0 <= c.1 < h,
        in_grid(g0, step(c, d)),
        !cell_open(g0, c),
        !cell_open(g0, step(c, d)),
        !is_room(s, c),
        is_room(s, step(c, opposite(d))),
        cell_open(g0, step(c, opposite(d))),
        forall|p: (int, int)| #[trigger] cell_open(g1, p) <==> (cell_open(g0, p) || p == c),
        forall|p: (int, int)| #[trigger] cell_open(g2, p) <==> (cell_open(g1, p) || p == step(c, d)),
    ensures
        tree_shape(g2, s, w, h),
{
    reveal(tree_shape);    let n = step(c, d);
    lemma_carve_counts(g0, g1, c, w, h);
    lemma_carve_counts(g1, g2, n, w, h);
    assert(is_room(s, n));
    match d {
        Dir::N => {
            assert(!cell_open(g0, (c.0 + 1, c.1)) && !cell_open(g0, (c.0 - 1, c.1)));
            assert(!cell_open(g0, (n.0 + 1, n.1)) && !cell_open(g0, (n.0 - 1, n.1)) && !cell_open(
                g0,
                (n.0, n.1 + 1),
            ));
        },
        Dir::S => {
            assert(!cell_open(g0, (c.0 + 1, c.1)) && !cell_open(g0, (c.0 - 1, c.1)));
            assert(!cell_open(g0, (n.0 + 1, n.1)) && !cell_open(g0, (n.0 - 1, n.1)) && !cell_open(
                g0,
                (n.0, n.1 - 1),
            ));
        },
        Dir::E => {
            assert(!cell_open(g0, (c.0, c.1 + 1)) && !cell_open(g0, (c.0, c.1 - 1)));
            assert(!cell_open(g0, (n.0, n.1 + 1)) && !cell_open(g0, (n.0, n.1 - 1)) && !cell_open(
                g0,
                (n.0 + 1, n.1),
            ));
        },
        Dir::W => {
            assert(!cell_open(g0, (c.0, c.1 + 1)) && !cell_open(g0, (c.0, c.1 - 1)));
            assert(!cell_open(g0, (n.0, n.1 + 1)) && !cell_open(g0, (n.0, n.1 - 1)) && !cell_open(
                g0,
                (n.0 - 1, n.1),
            ));
        },
    }
    assert(open_neighbours(g0, c) == 1);
    assert(open_neighbours(g1, n) == 1);
    assert forall|p: (int, int)| #[trigger] cell_open(g2, p) implies !is_pillar(s, p) && (is_room(
        s,
        p,
    ) || sides_open(g2, s, p)) by {
        if cell_open(g0, p) {
            if !is_room(s, p) {
                lemma_sides_open_grow(g0, g2, s, w, h, p);
            }
        } else if p == c {
            assert(cell_open(g2, step(c, opposite(d))));
            assert(cell_open(g2, n));
        }
    }
}

} // verus!
