use vstd::prelude::*;
use crate::data::{Pos, Dir, PresentLocation, Compass, pos_int, step, opposite};
use crate::rng::Rng;
use crate::grid::{
    adjacent, in_grid, cell_open, grid_wf, is_path, reachable, connected_from, grid_walls, open_count,
    open_edges, open_neighbours, is_room, tree_shape, frontier_rooms, lemma_carve,
    lemma_carve_keeps_connected, lemma_counts_closed, lemma_carve_counts, lemma_tree_carve_stub,
    lemma_tree_carve_passage, carve,
};
use crate::player::{Player, PlayerHandle, entry_view};

verus! {

/// Each frontier entry names a cell of the `w` by `h` grid whose neighbour
/// against its direction is already open.
pub open spec fn frontier_wf(g: Seq<Vec<bool>>, w: int, h: int, f: Seq<(usize, usize, Dir)>) -> bool {
    forall|k: int|
        0 <= k < f.len() ==> {
            let e = #[trigger] f[k];
            &&& e.0 < w
            &&& e.1 < h
            &&& cell_open(g, step(pos_int((e.0, e.1)), opposite(e.2)))
        }
}

/// Carves the wall at `(x, y)` inside generation: openness, connectivity from
/// `s` and the frontier's well-formedness all carry over, and the wall count
/// never grows.
fn carve_next_to(
    walls: &mut Vec<Vec<bool>>,
    x: usize,
    y: usize,
    Ghost(s): Ghost<(int, int)>,
    Ghost(q): Ghost<(int, int)>,
    Ghost(w): Ghost<int>,
    Ghost(h): Ghost<int>,
    Ghost(f): Ghost<Seq<(usize, usize, Dir)>>,
)
    requires
        grid_wf(old(walls)@, w, h),
        x < w,
        y < h,
        connected_from(old(walls)@, s),
        cell_open(old(walls)@, q),
        adjacent(q, (x as int, y as int)),
        frontier_wf(old(walls)@, w, h, f),
    ensures
        grid_wf(final(walls)@, w, h),
        connected_from(final(walls)@, s),
        forall|p: (int, int)|
            #[trigger] cell_open(final(walls)@, p) <==> (cell_open(old(walls)@, p) || p == (
                x as int,
                y as int,
            )),
        frontier_wf(final(walls)@, w, h, f),
        old(walls)@[x as int]@[y as int] ==> grid_walls(final(walls)@) + 1 == grid_walls(
            old(walls)@,
        ),
        !old(walls)@[x as int]@[y as int] ==> grid_walls(final(walls)@) == grid_walls(old(walls)@),
{
    let ghost g = walls@;
    carve(walls, x, y);
    proof {
        let g2 = walls@;
        lemma_carve(g, g2, x as int, y as int);
        lemma_carve_keeps_connected(g, g2, s, (x as int, y as int), q);
        assert forall|i: int| 0 <= i < w implies (#[trigger] g2[i])@.len() == h by {
            assert(g[i]@.len() == h);
        }
        assert forall|k: int| 0 <= k < f.len() implies {
            let e = #[trigger] f[k];
            &&& e.0 < w
            &&& e.1 < h
            &&& cell_open(g2, step(pos_int((e.0, e.1)), opposite(e.2)))
        } by {
            let e = f[k];
            assert(cell_open(g, step(pos_int((e.0, e.1)), opposite(e.2))));
        }
    }
}

/// Adds to the frontier each neighbour of the open room `(new_x, new_y)` that is
/// inside the grid and still a wall, with the direction pointing away from it.
fn push_walled_neighbours(
    walls: &Vec<Vec<bool>>,
    frontier: &mut Vec<(usize, usize, Dir)>,
    new_x: usize,
    new_y: usize,
    width: usize,
    height: usize,
    Ghost(s): Ghost<(int, int)>,
)
    requires
        grid_wf(walls@, width as int, height as int),
        frontier_wf(walls@, width as int, height as int, old(frontier)@),
        frontier_rooms(s, old(frontier)@),
        cell_open(walls@, pos_int((new_x, new_y))),
        is_room(s, pos_int((new_x, new_y))),
    ensures
        frontier_wf(walls@, width as int, height as int, final(frontier)@),
        frontier_rooms(s, final(frontier)@),
        final(frontier)@.len() <= old(frontier)@.len() + 4,
{
    if new_x > 0 && walls[new_x - 1][new_y] {
        frontier.push((new_x - 1, new_y, Dir::W));
    }
    if new_x < width - 1 && walls[new_x + 1][new_y] {
        frontier.push((new_x + 1, new_y, Dir::E));
    }
    if new_y > 0 && walls[new_x][new_y - 1] {
        frontier.push((new_x, new_y - 1, Dir::S));
    }
    if new_y < height - 1 && walls[new_x][new_y + 1] {
        frontier.push((new_x, new_y + 1, Dir::N));
    }
}

/// Opens the frontier cell `(wall_x, wall_y)`, whose far side in direction `d`
/// lies outside the grid.
fn carve_stub(
    walls: &mut Vec<Vec<bool>>,
    frontier: &Vec<(usize, usize, Dir)>,
    wall_x: usize,
    wall_y: usize,
    d: Dir,
    width: usize,
    height: usize,
    Ghost(s): Ghost<(int, int)>,
)
    requires
        grid_wf(old(walls)@, width as int, height as int),
        cell_open(old(walls)@, s),
        connected_from(old(walls)@, s),
        frontier_wf(old(walls)@, width as int, height as int, frontier@),
        tree_shape(old(walls)@, s, width as int, height as int),
        frontier_rooms(s, frontier@),
        wall_x < width,
        wall_y < height,
        cell_open(old(walls)@, step(pos_int((wall_x, wall_y)), opposite(d))),
        !is_room(s, pos_int((wall_x, wall_y))),
        is_room(s, step(pos_int((wall_x, wall_y)), opposite(d))),
        !in_grid(old(walls)@, step(pos_int((wall_x, wall_y)), d)),
    ensures
        grid_wf(final(walls)@, width as int, height as int),
        cell_open(final(walls)@, s),
        connected_from(final(walls)@, s),
        frontier_wf(final(walls)@, width as int, height as int, frontier@),
        tree_shape(final(walls)@, s, width as int, height as int),
        frontier_rooms(s, frontier@),
        grid_walls(final(walls)@) <= grid_walls(old(walls)@),
{
    let ghost gb = walls@;
    let ghost c = pos_int((wall_x, wall_y));
    carve_next_to(
        walls,
        wall_x,
        wall_y,
        Ghost(s),
        Ghost(step(c, opposite(d))),
        Ghost(width as int),
        Ghost(height as int),
        Ghost(frontier@),
    );
    proof {
        lemma_tree_carve_stub(gb, walls@, s, width as int, height as int, c, d);
    }
}

/// Opens the frontier cell `(wall_x, wall_y)` and the room `(new_x, new_y)`
/// beyond it in direction `d`, both walls so far, and adds the room's walled
/// neighbours to the frontier.
fn carve_passage(
    walls: &mut Vec<Vec<bool>>,
    frontier: &mut Vec<(usize, usize, Dir)>,
    wall_x: usize,
    wall_y: usize,
    new_x: usize,
    new_y: usize,
    d: Dir,
    width: usize,
    height: usize,
    Ghost(s): Ghost<(int, int)>,
)
    requires
        grid_wf(old(walls)@, width as int, height as int),
        cell_open(old(walls)@, s),
        connected_from(old(walls)@, s),
        frontier_wf(old(walls)@, width as int, height as int, old(frontier)@),
        tree_shape(old(walls)@, s, width as int, height as int),
        frontier_rooms(s, old(frontier)@),
        wall_x < width,
        wall_y < height,
        cell_open(old(walls)@, step(pos_int((wall_x, wall_y)), opposite(d))),
        !is_room(s, pos_int((wall_x, wall_y))),
        is_room(s, step(pos_int((wall_x, wall_y)), opposite(d))),
        new_x < width,
        new_y < height,
        pos_int((new_x, new_y)) == step(pos_int((wall_x, wall_y)), d),
        old(walls)@[wall_x as int]@[wall_y as int],
        old(walls)@[new_x as int]@[new_y as int],
    ensures
        grid_wf(final(walls)@, width as int, height as int),
        cell_open(final(walls)@, s),
        connected_from(final(walls)@, s),
        frontier_wf(final(walls)@, width as int, height as int, final(frontier)@),
        tree_shape(final(walls)@, s, width as int, height as int),
        frontier_rooms(s, final(frontier)@),
        4 * grid_walls(final(walls)@) + final(frontier)@.len() + 4 <= 4 * grid_walls(old(walls)@)
            + old(frontier)@.len(),
{
    let ghost w = width as int;
    let ghost h = height as int;
    let ghost c = pos_int((wall_x, wall_y));
    let ghost n = pos_int((new_x, new_y));
    let ghost g0 = walls@;
    carve_next_to(
        walls,
        wall_x,
        wall_y,
        Ghost(s),
        Ghost(step(c, opposite(d))),
        Ghost(w),
        Ghost(h),
        Ghost(frontier@),
    );
    assert(n != c);
    assert(!cell_open(walls@, n));
    assert(walls@[new_x as int]@[new_y as int]);
    let ghost g1 = walls@;
    carve_next_to(walls, new_x, new_y, Ghost(s), Ghost(c), Ghost(w), Ghost(h), Ghost(frontier@));
    proof {
        assert(in_grid(g0, n));
        assert(!cell_open(g0, c) && !cell_open(g0, n));
        lemma_tree_carve_passage(g0, g1, walls@, s, w, h, c, d);
        assert(is_room(s, n));
        assert(cell_open(walls@, n));
    }
    push_walled_neighbours(walls, frontier, new_x, new_y, width, height, Ghost(s));
}

/// Handles one frontier entry `(wall_x, wall_y, d)`, already taken off the
/// frontier: carves where the rules say so and adds the new frontier entries,
/// keeping connectivity and the tree shape; the wall count and frontier length
/// together never grow.
fn grow_step(
    walls: &mut Vec<Vec<bool>>,
    frontier: &mut Vec<(usize, usize, Dir)>,
    wall_x: usize,
    wall_y: usize,
    d: Dir,
    width: usize,
    height: usize,
    Ghost(s): Ghost<(int, int)>,
)
    requires
        grid_wf(old(walls)@, width as int, height as int),
        cell_open(old(walls)@, s),
        connected_from(old(walls)@, s),
        frontier_wf(old(walls)@, width as int, height as int, old(frontier)@),
        tree_shape(old(walls)@, s, width as int, height as int),
        frontier_rooms(s, old(frontier)@),
        wall_x < width,
        wall_y < height,
        cell_open(old(walls)@, step(pos_int((wall_x, wall_y)), opposite(d))),
        !is_room(s, pos_int((wall_x, wall_y))),
        is_room(s, step(pos_int((wall_x, wall_y)), opposite(d))),
    ensures
        grid_wf(final(walls)@, width as int, height as int),
        cell_open(final(walls)@, s),
        connected_from(final(walls)@, s),
        frontier_wf(final(walls)@, width as int, height as int, final(frontier)@),
        tree_shape(final(walls)@, s, width as int, height as int),
        frontier_rooms(s, final(frontier)@),
        4 * grid_walls(final(walls)@) + final(frontier)@.len() <= 4 * grid_walls(old(walls)@)
            + old(frontier)@.len(),
{
    let ghost c = pos_int((wall_x, wall_y));
    let next = d.move_pos((wall_x, wall_y));
    let inside = match next {
        Some((nx, ny)) => nx < width && ny < height,
        None => false,
    };
    if !inside {
        proof {
            assert(!in_grid(walls@, step(c, d))) by {
                if in_grid(walls@, step(c, d)) {
                    assert(walls@[step(c, d).0]@.len() == height);
                }
            }
        }
        carve_stub(walls, frontier, wall_x, wall_y, d, width, height, Ghost(s));
    } else {
        let (new_x, new_y) = match next {
            Some(n) => n,
            None => (wall_x, wall_y),
        };
        if walls[wall_x][wall_y] && walls[new_x][new_y] {
            carve_passage(
                walls,
                frontier,
                wall_x,
                wall_y,
                new_x,
                new_y,
                d,
                width,
                height,
                Ghost(s),
            );
        }
    }
}

/// Builds a `width` by `height` maze, indexed `[x][y]` with `true` for a wall, by
/// randomised frontier growth from `start`: the start is open, every open cell
/// can be reached from it through open cells, and the open cells form a tree:
/// the pairs of open cells that share a side number one less than the open cells.
pub fn generate_maze(width: usize, height: usize, start: Pos, rng: &mut Rng) -> (walls: Vec<
    Vec<bool>,
>)
    requires
        start.0 < width,
        start.1 < height,
    ensures
        grid_wf(walls@, width as int, height as int),
        cell_open(walls@, pos_int(start)),
        connected_from(walls@, pos_int(start)),
        open_edges(walls@, width as int, height as int) + 1 == open_count(
            walls@,
            width as int,
            height as int,
        ),
{
    let ghost w = width as int;
    let ghost h = height as int;
    let ghost s = pos_int(start);
    let mut walls: Vec<Vec<bool>> = Vec::new();
    let mut i: usize = 0;
    while i < width
        invariant
            i <= width,
            walls@.len() == i,
            forall|j: int| 0 <= j < i ==> (#[trigger] walls@[j])@ == Seq::new(height as nat, |k: int| true),
        decreases width - i,
    {
        let row: Vec<bool> = vec![true; height];
        walls.push(row);
        i = i + 1;
    }
    let (start_x, start_y) = start;
    let ghost g0 = walls@;
    carve(&mut walls, start_x, start_y);
    proof {
        let g1 = walls@;
        lemma_carve(g0, g1, s.0, s.1);
        assert forall|p: (int, int)| !#[trigger] cell_open(g0, p) by {
            if in_grid(g0, p) {
                assert(g0[p.0]@ == Seq::new(height as nat, |k: int| true));
            }
        }
        lemma_counts_closed(g0, w, h);
        lemma_carve_counts(g0, g1, s, w, h);
        assert(open_neighbours(g0, s) == 0);
        reveal(tree_shape);
        assert(tree_shape(g1, s, w, h));
        assert forall|p: (int, int)| #[trigger] cell_open(g1, p) implies reachable(g1, s, p) by {
            assert(p == s);
            let path = seq![s];
            assert(is_path(g1, path));
        }
        assert forall|j: int| 0 <= j < w implies (#[trigger] g1[j])@.len() == h by {
            assert(g0[j]@.len() == h);
        }
    }
    let mut frontier: Vec<(usize, usize, Dir)> = Vec::new();
    if start_x > 0 {
        frontier.push((start_x - 1, start_y, Dir::W));
    }
    if start_x < width - 1 {
        frontier.push((start_x + 1, start_y, Dir::E));
    }
    if start_y > 0 {
        frontier.push((start_x, start_y - 1, Dir::S));
    }
    if start_y < height - 1 {
        frontier.push((start_x, start_y + 1, Dir::N));
    }
    while frontier.len() > 0
        invariant
            grid_wf(walls@, w, h),
            w == width,
            h == height,
            s == pos_int(start),
            cell_open(walls@, s),
            connected_from(walls@, s),
            frontier_wf(walls@, w, h, frontier@),
            tree_shape(walls@, s, w, h),
            frontier_rooms(s, frontier@),
        decreases 4 * grid_walls(walls@) + frontier@.len(),
    {
        let k = rng.below(frontier.len());
        let ghost f0 = frontier@;
        let (wall_x, wall_y, d) = frontier.remove(k);
        proof {
            assert(f0[k as int] == (wall_x, wall_y, d));
            assert forall|j: int| 0 <= j < frontier@.len() implies {
                let e = #[trigger] frontier@[j];
                &&& e.0 < w
                &&& e.1 < h
                &&& cell_open(walls@, step(pos_int((e.0, e.1)), opposite(e.2)))
            } by {
                if j < k {
                    assert(frontier@[j] == f0[j]);
                } else {
                    assert(frontier@[j] == f0[j + 1]);
                }
            }
            assert forall|j: int| 0 <= j < frontier@.len() implies {
                let e = #[trigger] frontier@[j];
                &&& !is_room(s, pos_int((e.0, e.1)))
                &&& is_room(s, step(pos_int((e.0, e.1)), opposite(e.2)))
            } by {
                if j < k {
                    assert(frontier@[j] == f0[j]);
                } else {
                    assert(frontier@[j] == f0[j + 1]);
                }
            }
        }
        grow_step(&mut walls, &mut frontier, wall_x, wall_y, d, width, height, Ghost(s));
    }
    walls
}

/// The cell `k` steps from `p` in direction `d`.
pub open spec fn ray(p: (int, int), d: Dir, k: int) -> (int, int) {
    match d {
        Dir::N => (p.0, p.1 + k),
        Dir::E => (p.0 + k, p.1),
        Dir::S => (p.0, p.1 - k),
        Dir::W => (p.0 - k, p.1),
    }
}

/// The first `n` cells beyond `p` in direction `d` are all open.
pub open spec fn clear(g: Seq<Vec<bool>>, p: (int, int), d: Dir, n: int) -> bool {
    forall|k: int| 1 <= k <= n ==> cell_open(g, #[trigger] ray(p, d, k))
}

/// `n` is the free run from `p` in direction `d`: exactly `n` open cells follow
/// `p` before a wall or the edge.
pub open spec fn is_free_run(g: Seq<Vec<bool>>, p: (int, int), d: Dir, n: int) -> bool {
    n >= 0 && clear(g, p, d, n) && !cell_open(g, ray(p, d, n + 1))
}

/// The present hint at `p`, given the present cell and the four free runs at `p`.
pub open spec fn present_hint(
    present: (int, int),
    p: (int, int),
    north: int,
    east: int,
    south: int,
    west: int,
) -> PresentLocation {
    if p == present {
        PresentLocation::Here
    } else if p.0 == present.0 && present.1 > p.1 {
        if north >= present.1 - p.1 {
            PresentLocation::InDir(Dir::N)
        } else {
            PresentLocation::Unknown
        }
    } else if p.0 == present.0 && present.1 < p.1 {
        if south >= p.1 - present.1 {
            PresentLocation::InDir(Dir::S)
        } else {
            PresentLocation::Unknown
        }
    } else if p.1 == present.1 && present.0 > p.0 {
        if east >= present.0 - p.0 {
            PresentLocation::InDir(Dir::E)
        } else {
            PresentLocation::Unknown
        }
    } else if p.1 == present.1 && present.0 < p.0 {
        if west >= p.0 - present.0 {
            PresentLocation::InDir(Dir::W)
        } else {
            PresentLocation::Unknown
        }
    } else {
        PresentLocation::Unknown
    }
}

/// A free run is at least `n` exactly when the first `n` cells are clear.
pub proof fn lemma_free_run_covers(g: Seq<Vec<bool>>, p: (int, int), d: Dir, r: int, n: int)
    requires
        is_free_run(g, p, d, r),
        n >= 0,
    ensures
        r >= n <==> clear(g, p, d, n),
{
    if r < n {
        assert(!cell_open(g, ray(p, d, r + 1)));
    }
}

/// With the present due west on the same row, the compass points west exactly
/// when the west free run reaches the present, that is when the corridor up to it
/// is clear; a shorter run gives no hint at all.
pub proof fn lemma_west_hint(
    g: Seq<Vec<bool>>,
    present: (int, int),
    p: (int, int),
    north: int,
    east: int,
    south: int,
    west: int,
)
    requires
        present.1 == p.1,
        present.0 < p.0,
        is_free_run(g, p, Dir::W, west),
    ensures
        present_hint(present, p, north, east, south, west) == PresentLocation::InDir(Dir::W)
            <==> west >= p.0 - present.0,
        present_hint(present, p, north, east, south, west) == PresentLocation::InDir(Dir::W)
            <==> clear(g, p, Dir::W, p.0 - present.0),
        west < p.0 - present.0 ==> present_hint(present, p, north, east, south, west)
            == PresentLocation::Unknown,
{
    lemma_free_run_covers(g, p, Dir::W, west, p.0 - present.0);
}

/// `c` is the compass reading at `pos`: the four free runs, and the present hint
/// that they allow.
pub open spec fn compass_reads(info: MazeInfo, pos: Pos, c: Compass) -> bool {
    &&& is_free_run(info.walls@, pos_int(pos), Dir::N, c.north as int)
    &&& is_free_run(info.walls@, pos_int(pos), Dir::E, c.east as int)
    &&& is_free_run(info.walls@, pos_int(pos), Dir::S, c.south as int)
    &&& is_free_run(info.walls@, pos_int(pos), Dir::W, c.west as int)
    &&& c.present == present_hint(
        pos_int(info.present),
        pos_int(pos),
        c.north as int,
        c.east as int,
        c.south as int,
        c.west as int,
    )
}

/// What one step in direction `d` does for player `id` at `p0`: where the player
/// is in the table and the cell ahead is open, it moves there and the table
/// records it; otherwise nothing changes.
pub open spec fn walk_outcome(
    g: Seq<Vec<bool>>,
    t0: Seq<Entry>,
    id: u64,
    p0: Pos,
    d: Dir,
    t1: Seq<Entry>,
    p1: Pos,
) -> bool {
    if has_id(t0, id) && cell_open(g, step(pos_int(p0), d)) {
        &&& pos_int(p1) == step(pos_int(p0), d)
        &&& move_outcome(g, t0, id, p1, t1, true)
    } else {
        &&& p1 == p0
        &&& t1 == t0
    }
}

/// An id handed out by an add is above every id in the table before it, and
/// becomes the new last id; as removals and moves keep the last id, ids handed
/// out one after another grow strictly and never repeat.
pub proof fn lemma_added_id_fresh(
    g: Seq<Vec<bool>>,
    t0: Seq<Entry>,
    l0: u64,
    name: Seq<char>,
    pos: Pos,
    t1: Seq<Entry>,
    l1: u64,
    r: Option<(u64, Pos)>,
)
    requires
        add_outcome(g, t0, l0, name, pos, t1, l1, r),
        forall|i: int| 0 <= i < t0.len() ==> (#[trigger] t0[i]).0 <= l0,
        r is Some,
    ensures
        r.unwrap().0 > l0,
        l1 == r.unwrap().0,
        forall|i: int| 0 <= i < t0.len() ==> (#[trigger] t0[i]).0 < r.unwrap().0,
{
}

/// The fixed part of a maze: its size, its walls (indexed `[x][y]`, `true` for a
/// wall) and the cell of the present.
pub struct MazeInfo {
    pub width: usize,
    pub height: usize,
    pub walls: Vec<Vec<bool>>,
    pub present: Pos,
}

impl MazeInfo {
    /// The grid has the stated size, at least one cell each way, and the present
    /// lies on an open cell.
    pub open spec fn wf(&self) -> bool {
        &&& self.width >= 1
        &&& self.height >= 1
        &&& grid_wf(self.walls@, self.width as int, self.height as int)
        &&& cell_open(self.walls@, pos_int(self.present))
    }

    /// Whether `pos` is inside the grid and holds no wall.
    pub fn is_valid_location(&self, pos: Pos) -> (r: bool)
        requires
            self.wf(),
        ensures
            r == cell_open(self.walls@, pos_int(pos)),
    {
        let (x, y) = pos;
        x < self.width && y < self.height && !self.walls[x][y]
    }

    /// The number of open cells that follow `pos` in direction `d` before a wall
    /// or the edge.
    pub fn measure_free(&self, pos: Pos, d: Dir) -> (r: usize)
        requires
            self.wf(),
        ensures
            is_free_run(self.walls@, pos_int(pos), d, r as int),
    {
        let ghost p = pos_int(pos);
        let ghost w = self.width as int;
        let ghost h = self.height as int;
        let mut c: usize = 0;
        let mut cur = pos;
        loop
            invariant
                self.wf(),
                w == self.width,
                h == self.height,
                p == pos_int(pos),
                pos_int(cur) == ray(p, d, c as int),
                clear(self.walls@, p, d, c as int),
                c <= w + h,
            decreases w + h - c,
        {
            assert(ray(p, d, c + 1) == step(pos_int(cur), d));
            match d.move_pos(cur) {
                None => {
                    assert(!in_grid(self.walls@, ray(p, d, c + 1)));
                    return c;
                },
                Some(next) => {
                    if !self.is_valid_location(next) {
                        return c;
                    }
                    proof {
                        assert(cell_open(self.walls@, ray(p, d, 1)));
                        assert(cell_open(self.walls@, ray(p, d, c + 1)));
                    }
                    cur = next;
                    c = c + 1;
                },
            }
        }
    }

    /// The compass reading at `pos`: the four free runs, and the present hint
    /// that they allow.
    pub fn compass_at(&self, pos: Pos) -> (r: Compass)
        requires
            self.wf(),
        ensures
            compass_reads(*self, pos, r),
    {
        let north = self.measure_free(pos, Dir::N);
        let east = self.measure_free(pos, Dir::E);
        let south = self.measure_free(pos, Dir::S);
        let west = self.measure_free(pos, Dir::W);
        let (x, y) = pos;
        let (p_x, p_y) = self.present;
        let present = if p_x == x && p_y == y {
            PresentLocation::Here
        } else if p_x == x && p_y > y {
            if north >= p_y - y {
                PresentLocation::InDir(Dir::N)
            } else {
                PresentLocation::Unknown
            }
        } else if p_x == x && p_y < y {
            if south >= y - p_y {
                PresentLocation::InDir(Dir::S)
            } else {
                PresentLocation::Unknown
            }
        } else if p_y == y && p_x > x {
            if east >= p_x - x {
                PresentLocation::InDir(Dir::E)
            } else {
                PresentLocation::Unknown
            }
        } else if p_y == y && p_x < x {
            if west >= x - p_x {
                PresentLocation::InDir(Dir::W)
            } else {
                PresentLocation::Unknown
            }
        } else {
            PresentLocation::Unknown
        };
        Compass { north, east, south, west, present }
    }
}

/// A row of the player table as the contracts see it: id, name and position.
pub type Entry = (u64, Seq<char>, Pos);

/// The table with the row of `id` taken out, order kept.
pub open spec fn without(t: Seq<Entry>, id: u64) -> Seq<Entry>
    decreases t.len(),
{
    if t.len() == 0 {
        t
    } else if t.last().0 == id {
        without(t.drop_last(), id)
    } else {
        without(t.drop_last(), id).push(t.last())
    }
}

/// Ids grow strictly along the table, so none appears twice.
pub open spec fn ids_increasing(t: Seq<Entry>) -> bool {
    forall|i: int, j: int| 0 <= i < j < t.len() ==> (#[trigger] t[i]).0 < (#[trigger] t[j]).0
}

/// Some row of the table carries `id`.
pub open spec fn has_id(t: Seq<Entry>, id: u64) -> bool {
    exists|i: int| 0 <= i < t.len() && (#[trigger] t[i]).0 == id
}

/// What adding a player named `name` at `pos` does to table `t0` with last id
/// `l0`: where an id is left and `pos` is open, the next id is handed out and a
/// row appended; otherwise nothing changes.
pub open spec fn add_outcome(
    g: Seq<Vec<bool>>,
    t0: Seq<Entry>,
    l0: u64,
    name: Seq<char>,
    pos: Pos,
    t1: Seq<Entry>,
    l1: u64,
    r: Option<(u64, Pos)>,
) -> bool {
    if l0 < u64::MAX && cell_open(g, pos_int(pos)) {
        &&& r == Some(((l0 + 1) as u64, pos))
        &&& l1 == l0 + 1
        &&& t1 == t0.push(((l0 + 1) as u64, name, pos))
    } else {
        &&& r is None
        &&& l1 == l0
        &&& t1 == t0
    }
}

/// What moving player `id` to `pos` does to table `t0`: the move is stored, and
/// `r` is true, exactly when the player is in the table and `pos` is open.
pub open spec fn move_outcome(
    g: Seq<Vec<bool>>,
    t0: Seq<Entry>,
    id: u64,
    pos: Pos,
    t1: Seq<Entry>,
    r: bool,
) -> bool {
    &&& r == (has_id(t0, id) && cell_open(g, pos_int(pos)))
    &&& t1.len() == t0.len()
    &&& forall|i: int|
        0 <= i < t0.len() ==> #[trigger] t1[i] == if r && t0[i].0 == id {
            (id, t0[i].1, pos)
        } else {
            t0[i]
        }
}

proof fn lemma_without_absent(t: Seq<Entry>, id: u64)
    requires
        !has_id(t, id),
    ensures
        without(t, id) == t,
    decreases t.len(),
{
    if t.len() > 0 {
        assert(t.last() == t[t.len() - 1]);
        assert(!has_id(t.drop_last(), id)) by {
            if has_id(t.drop_last(), id) {
                let i = choose|i: int| 0 <= i < t.len() - 1 && (#[trigger] t.drop_last()[i]).0 == id;
                assert(t[i] == t.drop_last()[i]);
            }
        }
        lemma_without_absent(t.drop_last(), id);
        assert(t.drop_last().push(t.last()) =~= t);
    }
}

proof fn lemma_without_lacks(t: Seq<Entry>, id: u64)
    ensures
        !has_id(without(t, id), id),
    decreases t.len(),
{
    if t.len() > 0 {
        lemma_without_lacks(t.drop_last(), id);
        let r = without(t.drop_last(), id);
        if t.last().0 != id {
            assert forall|i: int| 0 <= i < r.len() + 1 implies (#[trigger] r.push(t.last())[i]).0
                != id by {
                if i < r.len() {
                    assert(r.push(t.last())[i] == r[i]);
                }
            }
        }
    }
}

proof fn lemma_without_remove(t: Seq<Entry>, id: u64, i: int)
    requires
        ids_increasing(t),
        0 <= i < t.len(),
        t[i].0 == id,
    ensures
        without(t, id) == t.remove(i),
    decreases t.len(),
{
    let d = t.drop_last();
    if i == t.len() - 1 {
        assert(!has_id(d, id)) by {
            if has_id(d, id) {
                let j = choose|j: int| 0 <= j < d.len() && (#[trigger] d[j]).0 == id;
                assert(t[j] == d[j]);
            }
        }
        lemma_without_absent(d, id);
        assert(t.remove(i) =~= d);
    } else {
        assert(t.last() == t[t.len() - 1]);
        assert(ids_increasing(d)) by {
            assert forall|a: int, b: int| 0 <= a < b < d.len() implies (#[trigger] d[a]).0 < (
            #[trigger] d[b]).0 by {
                assert(d[a] == t[a] && d[b] == t[b]);
            }
        }
        assert(d[i] == t[i]);
        lemma_without_remove(d, id, i);
        assert(t.remove(i) =~= d.remove(i).push(t.last()));
    }
}

/// Removing a player twice leaves the table as removing it once does.
pub proof fn lemma_remove_idempotent(t: Seq<Entry>, id: u64)
    ensures
        without(without(t, id), id) == without(t, id),
{
    lemma_without_lacks(t, id);
    lemma_without_absent(without(t, id), id);
}

/// A request to the owner of a maze's player table.
pub enum MazeMsg {
    AddPlayer(String, Pos),
    RemovePlayer(u64),
    MovePlayer(u64, Pos),
    GetPlayers,
}

/// The owner's answer to one request.
pub enum MazeReply {
    /// The new player's id and position, or `None` where it could not be placed.
    Added(Option<(u64, Pos)>),
    Removed,
    /// Whether the move was stored.
    Moved(bool),
    Players(Vec<Player>),
}

/// A maze together with everything that changes over a session: its players, the
/// last id handed out, and a random source for placing newcomers. One owner holds
/// it and applies requests one at a time.
pub struct Maze {
    info: MazeInfo,
    last_id: u64,
    players: Vec<(u64, Player)>,
    rng: Rng,
}

impl Maze {
    /// The fixed part of the maze.
    pub closed spec fn maze_info(&self) -> MazeInfo {
        self.info
    }

    /// The player table.
    pub closed spec fn table(&self) -> Seq<Entry> {
        self.players@.map_values(|e: (u64, Player)| entry_view(e))
    }

    /// The last id handed out; zero before the first.
    pub closed spec fn last_id(&self) -> u64 {
        self.last_id
    }

    /// The maze is well formed, ids grow along the table and none exceeds the
    /// last one handed out, and every player stands on an open cell.
    pub open spec fn wf(&self) -> bool {
        &&& self.maze_info().wf()
        &&& ids_increasing(self.table())
        &&& forall|i: int|
            0 <= i < self.table().len() ==> (#[trigger] self.table()[i]).0 <= self.last_id()
        &&& forall|i: int|
            0 <= i < self.table().len() ==> cell_open(
                self.maze_info().walls@,
                pos_int((#[trigger] self.table()[i]).2),
            )
    }

    /// A `width` by `height` maze grown from its midpoint, where the present
    /// lies, with no players yet; `seed` drives all its random choices.
    pub fn new(width: usize, height: usize, seed: u64) -> (r: Maze)
        requires
            width >= 1,
            height >= 1,
        ensures
            r.wf(),
            r.maze_info().width == width,
            r.maze_info().height == height,
            r.maze_info().present == (width / 2, height / 2),
            connected_from(r.maze_info().walls@, pos_int(r.maze_info().present)),
            open_edges(r.maze_info().walls@, width as int, height as int) + 1 == open_count(
                r.maze_info().walls@,
                width as int,
                height as int,
            ),
            r.table().len() == 0,
            r.last_id() == 0,
    {
        let present = (width / 2, height / 2);
        let mut rng = Rng::new(seed);
        let walls = generate_maze(width, height, present, &mut rng);
        let r = Maze {
            info: MazeInfo { width, height, walls, present },
            last_id: 0,
            players: Vec::new(),
            rng,
        };
        assert(r.table() =~= Seq::<Entry>::empty());
        r
    }

    /// Adds a player named `name` at `pos` under the next id, where an id is left
    /// and `pos` is open; otherwise changes nothing and returns `None`.
    pub fn insert_player(&mut self, name: String, pos: Pos) -> (r: Option<(u64, Pos)>)
        requires
            old(self).wf(),
        ensures
            final(self).wf(),
            final(self).maze_info() == old(self).maze_info(),
            add_outcome(
                old(self).maze_info().walls@,
                old(self).table(),
                old(self).last_id(),
                name@,
                pos,
                final(self).table(),
                final(self).last_id(),
                r,
            ),
    {
        if self.last_id == u64::MAX || !self.info.is_valid_location(pos) {
            return None;
        }
        let id = self.last_id + 1;
        self.last_id = id;
        let ghost t0 = old(self).table();
        let ghost nm = name@;
        self.players.push((id, Player { name, pos }));
        assert(self.table() =~= t0.push((id, nm, pos)));
        Some((id, pos))
    }

    /// Takes the player with `id` out of the table; an absent id changes nothing.
    pub fn remove_player(&mut self, id: u64)
        requires
            old(self).wf(),
        ensures
            final(self).wf(),
            final(self).maze_info() == old(self).maze_info(),
            final(self).last_id() == old(self).last_id(),
            final(self).table() == without(old(self).table(), id),
    {
        let ghost t0 = self.table();
        let mut i: usize = 0;
        while i < self.players.len()
            invariant
                self.table() == t0,
                t0 == old(self).table(),
                self.maze_info() == old(self).maze_info(),
                self.last_id() == old(self).last_id(),
                self.wf(),
                i <= self.players@.len(),
                forall|j: int| 0 <= j < i ==> (#[trigger] t0[j]).0 != id,
            decreases self.players@.len() - i,
        {
            assert(t0[i as int] == entry_view(self.players@[i as int]));
            if self.players[i].0 == id {
                self.players.remove(i);
                proof {
                    lemma_without_remove(t0, id, i as int);
                    assert(self.table() =~= t0.remove(i as int));
                    let t1 = self.table();
                    assert forall|a: int, b: int| 0 <= a < b < t1.len() implies (
                    #[trigger] t1[a]).0 < (#[trigger] t1[b]).0 by {
                        let a0 = if a < i { a } else { a + 1 };
                        let b0 = if b < i { b } else { b + 1 };
                        assert(t1[a] == t0[a0] && t1[b] == t0[b0]);
                    }
                    assert forall|j: int| 0 <= j < t1.len() implies (#[trigger] t1[j]).0
                        <= self.last_id() && cell_open(self.maze_info().walls@, pos_int(t1[j].2)) by {
                        let j0 = if j < i { j } else { j + 1 };
                        assert(t1[j] == t0[j0]);
                    }
                }
                return;
            }
            i = i + 1;
        }
        proof {
            lemma_without_absent(t0, id);
        }
    }

    /// Moves the player with `id` to `pos` where it is in the table and `pos` is
    /// open, and says whether it did.
    pub fn move_player(&mut self, id: u64, pos: Pos) -> (r: bool)
        requires
            old(self).wf(),
        ensures
            final(self).wf(),
            final(self).maze_info() == old(self).maze_info(),
            final(self).last_id() == old(self).last_id(),
            move_outcome(
                old(self).maze_info().walls@,
                old(self).table(),
                id,
                pos,
                final(self).table(),
                r,
            ),
    {
        let ghost t0 = self.table();
        if !self.info.is_valid_location(pos) {
            return false;
        }
        let mut i: usize = 0;
        while i < self.players.len()
            invariant
                self.table() == t0,
                t0 == old(self).table(),
                self.maze_info() == old(self).maze_info(),
                self.last_id() == old(self).last_id(),
                self.wf(),
                cell_open(old(self).maze_info().walls@, pos_int(pos)),
                i <= self.players@.len(),
                forall|j: int| 0 <= j < i ==> (#[trigger] t0[j]).0 != id,
            decreases self.players@.len() - i,
        {
            assert(t0[i as int] == entry_view(self.players@[i as int]));
            if self.players[i].0 == id {
                let ghost p0 = self.players@;
                let mut entry = self.players.remove(i);
                entry.1.pos = pos;
                self.players.insert(i, entry);
                proof {
                    let t1 = self.table();
                    assert(self.players@ =~= p0.update(i as int, entry));
                    assert forall|j: int| 0 <= j < t0.len() implies #[trigger] t1[j] == if t0[j].0
                        == id {
                        (id, t0[j].1, pos)
                    } else {
                        t0[j]
                    } by {
                        if j != i {
                            assert(t0[j].0 != t0[i as int].0) by {
                                if j < i {
                                    assert(t0[j].0 < t0[i as int].0);
                                } else {
                                    assert(t0[i as int].0 < t0[j].0);
                                }
                            }
                        }
                    }
                    assert(has_id(t0, id));
                    assert(t1.len() == t0.len());
                    assert forall|a: int, b: int| 0 <= a < b < t1.len() implies (
                    #[trigger] t1[a]).0 < (#[trigger] t1[b]).0 by {
                        assert(t1[a].0 == t0[a].0 && t1[b].0 == t0[b].0);
                    }
                    assert forall|j: int| 0 <= j < t1.len() implies (#[trigger] t1[j]).0
                        <= self.last_id() && cell_open(self.maze_info().walls@, pos_int(t1[j].2)) by {
                        assert(t1[j] == t0[j] || t1[j].2 == pos);
                    }
                }
                return true;
            }
            i = i + 1;
        }
        proof {
            assert(!has_id(t0, id));
        }
        false
    }

    /// A copy of every player's name and position, in table order.
    pub fn players(&self) -> (r: Vec<Player>)
        ensures
            r@.len() == self.table().len(),
            forall|i: int|
                0 <= i < r@.len() ==> (#[trigger] r@[i]).name@ == self.table()[i].1 && r@[i].pos
                    == self.table()[i].2,
    {
        let mut out: Vec<Player> = Vec::new();
        let mut i: usize = 0;
        while i < self.players.len()
            invariant
                i <= self.players@.len(),
                out@.len() == i,
                forall|j: int|
                    0 <= j < i ==> (#[trigger] out@[j]).name@ == self.table()[j].1 && out@[j].pos
                        == self.table()[j].2,
            decreases self.players@.len() - i,
        {
            out.push(self.players[i].1.snapshot());
            i = i + 1;
        }
        out
    }

    /// Every open cell, column by column.
    pub fn open_cells(&self) -> (r: Vec<Pos>)
        requires
            self.wf(),
        ensures
            forall|k: int| 0 <= k < r@.len() ==> cell_open(self.maze_info().walls@, pos_int(#[trigger] r@[k])),
            forall|p: Pos| cell_open(self.maze_info().walls@, pos_int(p)) ==> r@.contains(p),
    {
        let info = &self.info;
        let ghost g = info.walls@;
        let mut out: Vec<Pos> = Vec::new();
        let mut x: usize = 0;
        while x < info.width
            invariant
                info.wf(),
                g == info.walls@,
                x <= info.width,
                forall|k: int| 0 <= k < out@.len() ==> cell_open(g, pos_int(#[trigger] out@[k])),
                forall|p: Pos| p.0 < x && cell_open(g, pos_int(p)) ==> out@.contains(p),
            decreases info.width - x,
        {
            let mut y: usize = 0;
            while y < info.height
                invariant
                    info.wf(),
                    g == info.walls@,
                    x < info.width,
                    y <= info.height,
                    forall|k: int| 0 <= k < out@.len() ==> cell_open(g, pos_int(#[trigger] out@[k])),
                    forall|p: Pos|
                        (p.0 < x || (p.0 == x && p.1 < y)) && cell_open(g, pos_int(p))
                            ==> out@.contains(p),
                decreases info.height - y,
            {
                let valid = info.is_valid_location((x, y));
                let ghost o0 = out@;
                if valid {
                    out.push((x, y));
                    assert(out@[o0.len() as int] == (x, y));
                }
                assert forall|p: Pos|
                    (p.0 < x || (p.0 == x && p.1 < y + 1)) && cell_open(g, pos_int(p)) implies out@.contains(p) by {
                    if p.0 == x && p.1 == y {
                        assert(valid == cell_open(g, pos_int(p)));
                        assert(out@[o0.len() as int] == p);
                    } else {
                        assert(o0.contains(p));
                        let k = choose|k: int| 0 <= k < o0.len() && o0[k] == p;
                        assert(out@[k] == p);
                    }
                }
                y = y + 1;
            }
            x = x + 1;
        }
        out
    }

    /// Places a new player named `name` on an open cell drawn uniformly at random
    /// and returns its handle; `None` once every id has been handed out.
    pub fn add_player(&mut self, name: &str) -> (r: Option<PlayerHandle>)
        requires
            old(self).wf(),
        ensures
            final(self).wf(),
            final(self).maze_info() == old(self).maze_info(),
            r is Some <==> old(self).last_id() < u64::MAX,
            match r {
                Some(h) => {
                    &&& h.id == old(self).last_id() + 1
                    &&& final(self).last_id() == h.id
                    &&& cell_open(old(self).maze_info().walls@, pos_int(h.pos))
                    &&& final(self).table() == old(self).table().push((h.id, name@, h.pos))
                },
                None => final(self).table() == old(self).table() && final(self).last_id() == old(
                    self,
                ).last_id(),
            },
    {
        let cells = self.open_cells();
        let present = self.info.present;
        assert(cells@.contains(present));
        let k = self.rng.below(cells.len());
        let pos = cells[k];
        assert(cell_open(self.maze_info().walls@, pos_int(cells@[k as int])));
        match self.insert_player(name.to_owned(), pos) {
            Some((id, p)) => Some(PlayerHandle { id, pos: p }),
            None => None,
        }
    }

    /// Whether `pos` is inside the maze and holds no wall.
    pub fn is_valid_location(&self, pos: Pos) -> (r: bool)
        requires
            self.wf(),
        ensures
            r == cell_open(self.maze_info().walls@, pos_int(pos)),
    {
        self.info.is_valid_location(pos)
    }

    /// The number of open cells that follow `pos` in direction `d` before a wall
    /// or the edge.
    pub fn measure_free(&self, pos: Pos, d: Dir) -> (r: usize)
        requires
            self.wf(),
        ensures
            is_free_run(self.maze_info().walls@, pos_int(pos), d, r as int),
    {
        self.info.measure_free(pos, d)
    }

    /// The fixed part of the maze.
    pub fn info(&self) -> (r: &MazeInfo)
        ensures
            *r == self.maze_info(),
    {
        &self.info
    }
}

/// Applies one request to the maze and answers it: the single place where the
/// player table changes.
pub fn processor(maze: &mut Maze, msg: MazeMsg) -> (r: MazeReply)
    requires
        old(maze).wf(),
    ensures
        final(maze).wf(),
        final(maze).maze_info() == old(maze).maze_info(),
        match msg {
            MazeMsg::AddPlayer(name, pos) => match r {
                MazeReply::Added(a) => add_outcome(
                    old(maze).maze_info().walls@,
                    old(maze).table(),
                    old(maze).last_id(),
                    name@,
                    pos,
                    final(maze).table(),
                    final(maze).last_id(),
                    a,
                ),
                _ => false,
            },
            MazeMsg::RemovePlayer(id) => r is Removed && final(maze).last_id() == old(
                maze,
            ).last_id() && final(maze).table() == without(old(maze).table(), id),
            MazeMsg::MovePlayer(id, pos) => match r {
                MazeReply::Moved(b) => final(maze).last_id() == old(maze).last_id() && move_outcome(
                    old(maze).maze_info().walls@,
                    old(maze).table(),
                    id,
                    pos,
                    final(maze).table(),
                    b,
                ),
                _ => false,
            },
            MazeMsg::GetPlayers => match r {
                MazeReply::Players(v) => {
                    &&& final(maze).table() == old(maze).table()
                    &&& final(maze).last_id() == old(maze).last_id()
                    &&& v@.len() == old(maze).table().len()
                    &&& forall|i: int|
                        0 <= i < v@.len() ==> (#[trigger] v@[i]).name@ == old(maze).table()[i].1
                            && v@[i].pos == old(maze).table()[i].2
                },
                _ => false,
            },
        },
{
    match msg {
        MazeMsg::AddPlayer(name, pos) => MazeReply::Added(maze.insert_player(name, pos)),
        MazeMsg::RemovePlayer(id) => {
            maze.remove_player(id);
            MazeReply::Removed
        },
        MazeMsg::MovePlayer(id, pos) => MazeReply::Moved(maze.move_player(id, pos)),
        MazeMsg::GetPlayers => MazeReply::Players(maze.players()),
    }
}

} // verus!
