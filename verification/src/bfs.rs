//! The breadth-first search over a prepared grid, layer by layer, with the
//! proof that it computes the distances of the model in `grid`.

use vstd::prelude::*;

use crate::grid::{
    at_distance, found_target, full_distances, grid_free_count, grid_view, in_grid, is_open,
    is_target, lemma_distance_unique, lemma_grid_free_bound, lemma_grid_free_update,
    lemma_neighbor_back, lemma_reached_cell, lemma_reached_mono, lemma_reached_step,
    lemma_row_free_update, lemma_saturated, lemma_touches_neighbor, neighbor, no_target_touched,
    opposite, reachable, reached, same_shape, search_grid, settled_upto, stopped_at_target,
    touches, INFINITY, RESSOURCE,
};

verus! {


/// The offset of neighbour `k`, in the order up, down, left, right.
pub(crate) fn neighbor_offset(k: usize) -> (d: (i32, i32))
    requires
        k < 4,
    ensures
        -1 <= d.0 <= 1,
        -1 <= d.1 <= 1,
        forall|x: int, y: int| #[trigger] neighbor(x, y, k as int) == (x + d.0, y + d.1),
{
    if k == 0 {
        (0, -1)
    } else if k == 1 {
        (0, 1)
    } else if k == 2 {
        (-1, 0)
    } else {
        (1, 0)
    }
}

/// The cells queued for the next layer are exactly the cells that already hold
/// `l + 1` without being reached within `l` steps, all at distance `l + 1`.
spec fn next_ok(
    g: Seq<Seq<i32>>,
    sx: int,
    sy: int,
    cur: Seq<Seq<i32>>,
    next: Seq<(usize, usize)>,
    l: nat,
) -> bool {
    &&& forall|i: int|
        #![trigger next[i]]
        0 <= i < next.len() ==> {
            &&& in_grid(g, next[i].0 as int, next[i].1 as int)
            &&& cur[next[i].1 as int][next[i].0 as int] == l + 1
            &&& at_distance(g, sx, sy, next[i].0 as int, next[i].1 as int, l + 1)
        }
    &&& forall|x: int, y: int|
        #![trigger cur[y][x]]
        in_grid(g, x, y) && cur[y][x] == l + 1 && !reached(g, sx, sy, x, y, l) ==> next.contains(
            (x as usize, y as usize),
        )
}

pub(crate) fn set_cell(grid: &mut Vec<Vec<i32>>, x: usize, y: usize, v: i32)
    requires
        y < old(grid)@.len(),
        x < old(grid)@[y as int]@.len(),
    ensures
        grid_view(final(grid)@) == grid_view(old(grid)@).update(
            y as int,
            grid_view(old(grid)@)[y as int].update(x as int, v),
        ),
{
    grid[y][x] = v;
    assert(grid_view(grid@) =~= grid_view(old(grid)@).update(
        y as int,
        grid_view(old(grid)@)[y as int].update(x as int, v),
    ));
}

/// Where one layer of the search stands: stopped at a challenge cell (with the
/// grid at that moment), or going on with a grid and the cells queued so far.
pub enum Sweep {
    Stopped(Seq<Seq<i32>>, (int, int)),
    Going(Seq<Seq<i32>>, Seq<(int, int)>),
}

/// Looks at neighbour `k` of `(x, y)` while cells get the distance `dist`: a
/// cell outside the grid is skipped, a challenge cell stops the search, a cell
/// holding more than `dist` gets `dist` and is queued.
pub open spec fn visit(grid: Seq<Seq<i32>>, next: Seq<(int, int)>, x: int, y: int, k: int, dist: int) -> Sweep {
    let c = neighbor(x, y, k);
    if !in_grid(grid, c.0, c.1) {
        Sweep::Going(grid, next)
    } else if grid[c.1][c.0] == RESSOURCE {
        Sweep::Stopped(grid, c)
    } else if dist < grid[c.1][c.0] {
        Sweep::Going(grid.update(c.1, grid[c.1].update(c.0, dist as i32)), next.push(c))
    } else {
        Sweep::Going(grid, next)
    }
}

/// Looks at the neighbours `k`, `k + 1`, ..., 3 of `(x, y)` in turn.
pub open spec fn visit_from(
    grid: Seq<Seq<i32>>,
    next: Seq<(int, int)>,
    x: int,
    y: int,
    k: int,
    dist: int,
) -> Sweep
    decreases 4 - k,
{
    if k >= 4 {
        Sweep::Going(grid, next)
    } else {
        match visit(grid, next, x, y, k, dist) {
            Sweep::Stopped(g, c) => Sweep::Stopped(g, c),
            Sweep::Going(g, n) => visit_from(g, n, x, y, k + 1, dist),
        }
    }
}

/// Handles the cells of `layer` from the last to the first, giving the next
/// layer the distance `dist`.
pub open spec fn sweep_layer(
    grid: Seq<Seq<i32>>,
    layer: Seq<(int, int)>,
    next: Seq<(int, int)>,
    dist: int,
) -> Sweep
    decreases layer.len(),
{
    if layer.len() == 0 {
        Sweep::Going(grid, next)
    } else {
        let p = layer.last();
        match visit_from(grid, next, p.0, p.1, 0, dist) {
            Sweep::Stopped(g, c) => Sweep::Stopped(g, c),
            Sweep::Going(g, n) => sweep_layer(g, layer.drop_last(), n, dist),
        }
    }
}

/// The search from the layer `layer` at distance `dist`, for at most `fuel`
/// more layers: the final grid, and the challenge cell it stopped at.
pub open spec fn sweep_all(grid: Seq<Seq<i32>>, layer: Seq<(int, int)>, dist: int, fuel: nat) -> (
    Seq<Seq<i32>>,
    Option<(int, int)>,
)
    decreases fuel,
{
    if fuel == 0 {
        (grid, None)
    } else {
        match sweep_layer(grid, layer, Seq::empty(), dist + 1) {
            Sweep::Stopped(g, c) => (g, Some(c)),
            Sweep::Going(g, n) => if n.len() == 0 {
                (g, None)
            } else {
                sweep_all(g, n, dist + 1, (fuel - 1) as nat)
            },
        }
    }
}

/// What the search from `(sx, sy)` over the grid `g` gives: the final grid and
/// the challenge cell it stopped at, if any. A search never takes more layers
/// than the grid has cells.
pub open spec fn search_result(g: Seq<Seq<i32>>, sx: int, sy: int) -> (
    Seq<Seq<i32>>,
    Option<(int, int)>,
) {
    sweep_all(g, seq![(sx, sy)], 0, (g.len() * g[sy].len()) as nat)
}

/// The rest of a layer once the neighbours of `(x, y)` before `k` have been
/// looked at and the cells `rest` are still to be handled.
pub open spec fn resume(
    grid: Seq<Seq<i32>>,
    next: Seq<(int, int)>,
    x: int,
    y: int,
    k: int,
    rest: Seq<(int, int)>,
    dist: int,
) -> Sweep {
    match visit_from(grid, next, x, y, k, dist) {
        Sweep::Stopped(g, c) => Sweep::Stopped(g, c),
        Sweep::Going(g, n) => sweep_layer(g, rest, n, dist),
    }
}

/// Queued cells as pairs of integers.
pub open spec fn cells(q: Seq<(usize, usize)>) -> Seq<(int, int)> {
    q.map_values(|c: (usize, usize)| (c.0 as int, c.1 as int))
}

/// A found cell as a pair of integers.
pub open spec fn found_cell(p: Option<(u16, u16)>) -> Option<(int, int)> {
    match p {
        Some(c) => Some((c.0 as int, c.1 as int)),
        None => None,
    }
}

/// Examines the neighbour `k` of the cell `(cx, cy)`, which lies at distance
/// at most `l` from the start: a challenge cell is reported, an unreached free
/// cell gets the distance `current_dist` and is queued in `next`.
fn relax(
    distances: &mut Vec<Vec<i32>>,
    next: &mut Vec<(usize, usize)>,
    cx: usize,
    cy: usize,
    k: usize,
    width: usize,
    height: usize,
    current_dist: i32,
    Ghost(g): Ghost<Seq<Seq<i32>>>,
    Ghost(sx): Ghost<int>,
    Ghost(sy): Ghost<int>,
    Ghost(l): Ghost<nat>,
) -> (found: Option<(u16, u16)>)
    requires
        search_grid(g, width as int, height as int, sx, sy),
        width <= 65535,
        height <= 65535,
        same_shape(g, grid_view(old(distances)@)),
        settled_upto(g, sx, sy, grid_view(old(distances)@), l),
        next_ok(g, sx, sy, grid_view(old(distances)@), old(next)@, l),
        in_grid(g, cx as int, cy as int),
        reached(g, sx, sy, cx as int, cy as int, l),
        k < 4,
        current_dist == l + 1,
        l + 1 < RESSOURCE,
    ensures
        match found {
            Some(p) => {
                &&& visit(grid_view(old(distances)@), cells(old(next)@), cx as int, cy as int, k as int, current_dist as int)
                    == Sweep::Stopped(grid_view(old(distances)@), (p.0 as int, p.1 as int))
                &&& p.0 == neighbor(cx as int, cy as int, k as int).0
                &&& p.1 == neighbor(cx as int, cy as int, k as int).1
                &&& is_target(g, p.0 as int, p.1 as int)
                &&& final(distances)@ == old(distances)@
            },
            None => {
                &&& visit(grid_view(old(distances)@), cells(old(next)@), cx as int, cy as int, k as int, current_dist as int)
                    == Sweep::Going(grid_view(final(distances)@), cells(final(next)@))
                &&& same_shape(g, grid_view(final(distances)@))
                &&& settled_upto(g, sx, sy, grid_view(final(distances)@), l)
                &&& next_ok(g, sx, sy, grid_view(final(distances)@), final(next)@, l)
                &&& grid_free_count(grid_view(final(distances)@)) + final(next)@.len()
                    == grid_free_count(grid_view(old(distances)@)) + old(next)@.len()
                &&& forall|x: int, y: int|
                    #![trigger grid_view(final(distances)@)[y][x]]
                    in_grid(g, x, y) ==> grid_view(final(distances)@)[y][x] == grid_view(
                        old(distances)@,
                    )[y][x] || (grid_view(old(distances)@)[y][x] == INFINITY && grid_view(
                        final(distances)@,
                    )[y][x] == l + 1)
                &&& in_grid(
                    g,
                    neighbor(cx as int, cy as int, k as int).0,
                    neighbor(cx as int, cy as int, k as int).1,
                ) ==> {
                    let (nx, ny) = neighbor(cx as int, cy as int, k as int);
                    &&& !is_target(g, nx, ny)
                    &&& is_open(g, nx, ny) ==> reached(g, sx, sy, nx, ny, l) || grid_view(
                        final(distances)@,
                    )[ny][nx] == l + 1
                }
            },
        },
{
    let ghost cur0 = grid_view(distances@);
    let (dx, dy) = neighbor_offset(k);
    assert(g[cy as int].len() == width);
    let nx = cx as i32 + dx;
    let ny = cy as i32 + dy;
    assert(neighbor(cx as int, cy as int, k as int) == (nx as int, ny as int));
    if nx < 0 || nx >= width as i32 || ny < 0 || ny >= height as i32 {
        return None;
    }
    let ux = nx as usize;
    let uy = ny as usize;
    assert(cur0[uy as int] == distances@[uy as int]@);
    let dist = distances[uy][ux];
    assert(dist == cur0[ny as int][nx as int]);
    proof {
        lemma_neighbor_back(cx as int, cy as int, k as int);
        let back = opposite(k as int);
        assert(neighbor(nx as int, ny as int, back) == (cx as int, cy as int));
        lemma_touches_neighbor(g, sx, sy, nx as int, ny as int, l);
        assert(reached(g, sx, sy, neighbor(nx as int, ny as int, back).0, neighbor(nx as int, ny as int, back).1, l));
        assert(touches(g, sx, sy, nx as int, ny as int, l));
        lemma_reached_step(g, sx, sy, nx as int, ny as int, l);
        if reached(g, sx, sy, nx as int, ny as int, l) {
            lemma_reached_cell(g, sx, sy, nx as int, ny as int, l);
        }
        if reached(g, sx, sy, nx as int, ny as int, l + 1) {
            lemma_reached_cell(g, sx, sy, nx as int, ny as int, l + 1);
        }
    }
    if dist == RESSOURCE {
        return Some((nx as u16, ny as u16));
    }
    if current_dist < dist {
        proof {
            lemma_row_free_update(cur0[ny as int], nx as int, current_dist);
            lemma_grid_free_update(cur0, ny as int, cur0[ny as int].update(nx as int, current_dist));
        }
        set_cell(distances, ux, uy, current_dist);
        next.push((ux, uy));
        proof {
            let cur1 = grid_view(distances@);
            assert(cells(next@) =~= cells(old(next)@).push((nx as int, ny as int)));
            assert(at_distance(g, sx, sy, nx as int, ny as int, l + 1));
            assert forall|x: int, y: int|
                #![trigger cur1[y][x]]
                in_grid(g, x, y) && cur1[y][x] == l + 1 && !reached(g, sx, sy, x, y, l)
                implies next@.contains((x as usize, y as usize)) by {
                if x == nx && y == ny {
                    assert(next@[next@.len() - 1] == (x as usize, y as usize));
                } else {
                    assert(cur1[y][x] == cur0[y][x]);
                    let i = choose|i: int| 0 <= i < old(next)@.len() && old(next)@[i] == (x as usize, y as usize);
                    assert(next@[i] == old(next)@[i]);
                }
            }
            assert forall|i: int| 0 <= i < next@.len() implies {
                &&& in_grid(g, #[trigger] next@[i].0 as int, next@[i].1 as int)
                &&& cur1[next@[i].1 as int][next@[i].0 as int] == l + 1
                &&& at_distance(g, sx, sy, next@[i].0 as int, next@[i].1 as int, l + 1)
            } by {
                if i < old(next)@.len() {
                    assert(next@[i] == old(next)@[i]);
                    let (a, b) = (next@[i].0 as int, next@[i].1 as int);
                    assert(cur0[b][a] == l + 1);
                    assert(!(a == nx && b == ny));
                }
            }
            assert forall|x: int, y: int|
                #![trigger cur1[y][x]]
                in_grid(g, x, y) implies {
                &&& reached(g, sx, sy, x, y, l) ==> 0 <= cur1[y][x] <= l && at_distance(
                    g,
                    sx,
                    sy,
                    x,
                    y,
                    cur1[y][x] as nat,
                )
                &&& !reached(g, sx, sy, x, y, l) ==> cur1[y][x] == g[y][x] || (cur1[y][x] == l + 1
                    && at_distance(g, sx, sy, x, y, l + 1))
            } by {
                if !(x == nx && y == ny) {
                    assert(cur1[y][x] == cur0[y][x]);
                }
            }
        }
    }
    None
}

/// All four neighbours of `(x, y)` have been examined.
spec fn neighbors_examined(examined: Set<(int, int)>, x: int, y: int) -> bool {
    forall|k: int| 0 <= k < 4 ==> examined.contains(#[trigger] neighbor(x, y, k))
}

/// Every examined cell inside the grid is no challenge, and an examined free
/// cell is reached within `l` steps or already holds `l + 1`.
spec fn examined_ok(
    g: Seq<Seq<i32>>,
    sx: int,
    sy: int,
    cur: Seq<Seq<i32>>,
    examined: Set<(int, int)>,
    l: nat,
) -> bool {
    forall|c: (int, int)|
        #![trigger examined.contains(c)]
        examined.contains(c) && in_grid(g, c.0, c.1) ==> {
            &&& !is_target(g, c.0, c.1)
            &&& is_open(g, c.0, c.1) ==> reached(g, sx, sy, c.0, c.1, l) || cur[c.1][c.0] == l + 1
        }
}

/// The neighbours of every cell reached within `l - 1` steps have been examined.
spec fn covered(g: Seq<Seq<i32>>, sx: int, sy: int, examined: Set<(int, int)>, l: nat) -> bool {
    forall|x: int, y: int|
        #![trigger reached(g, sx, sy, x, y, (l - 1) as nat)]
        l > 0 && reached(g, sx, sy, x, y, (l - 1) as nat) ==> neighbors_examined(examined, x, y)
}

/// `a` holds exactly the cells at distance `l`.
spec fn frontier(g: Seq<Seq<i32>>, sx: int, sy: int, a: Seq<(usize, usize)>, l: nat) -> bool {
    &&& forall|i: int|
        #![trigger a[i]]
        0 <= i < a.len() ==> in_grid(g, a[i].0 as int, a[i].1 as int) && at_distance(
            g,
            sx,
            sy,
            a[i].0 as int,
            a[i].1 as int,
            l,
        )
    &&& forall|x: int, y: int|
        #![trigger at_distance(g, sx, sy, x, y, l)]
        in_grid(g, x, y) && at_distance(g, sx, sy, x, y, l) ==> a.contains((x as usize, y as usize))
}

/// Cells reached within `l` steps hold their distance, all others their initial value.
spec fn settled_exact(g: Seq<Seq<i32>>, sx: int, sy: int, cur: Seq<Seq<i32>>, l: nat) -> bool {
    &&& settled_upto(g, sx, sy, cur, l)
    &&& forall|x: int, y: int|
        #![trigger cur[y][x]]
        in_grid(g, x, y) && !reached(g, sx, sy, x, y, l) ==> cur[y][x] == g[y][x]
}

/// Breadth-first search, layer by layer, from `(sx, sy)` over the prepared
/// grid `distances`, stopping at the first challenge cell next to a layer.
#[verifier::loop_isolation(false)]
#[verifier::rlimit(60)]
pub(crate) fn bfs_run(distances: Vec<Vec<i32>>, sx: usize, sy: usize, width: usize, height: usize) -> (res: (
    Vec<Vec<i32>>,
    Option<(u16, u16)>,
))
    requires
        search_grid(grid_view(distances@), width as int, height as int, sx as int, sy as int),
        width <= 65535,
        height <= 65535,
        height * width <= 0x7fff_fffc,
    ensures
        (grid_view(res.0@), found_cell(res.1)) == search_result(
            grid_view(distances@),
            sx as int,
            sy as int,
        ),
        same_shape(grid_view(distances@), grid_view(res.0@)),
        match res.1 {
            None => {
                &&& full_distances(grid_view(distances@), sx as int, sy as int, grid_view(res.0@))
                &&& forall|n: nat| no_target_touched(grid_view(distances@), sx as int, sy as int, n)
            },
            Some(p) => stopped_at_target(
                grid_view(distances@),
                sx as int,
                sy as int,
                grid_view(res.0@),
                p.0 as int,
                p.1 as int,
            ),
        },
{
    let ghost g = grid_view(distances@);
    let ghost gsx = sx as int;
    let ghost gsy = sy as int;
    let ghost area: int = (height as int) * (width as int);
    let mut distances = distances;
    let mut current_dist: i32 = 0;
    let mut buffer_a: Vec<(usize, usize)> = Vec::new();
    buffer_a.push((sx, sy));
    let mut buffer_b: Vec<(usize, usize)> = Vec::new();
    let ghost mut examined: Set<(int, int)> = Set::empty();
    let ghost outcome = search_result(g, gsx, gsy);
    proof {
        assert(grid_view(distances@) =~= g);
        assert(cells(buffer_a@) =~= seq![(gsx, gsy)]);
        assert(g[gsy].len() == width);
        assert(at_distance(g, gsx, gsy, gsx, gsy, 0));
        assert(buffer_a@[0] == (sx, sy));
        assert forall|x: int, y: int|
            #![trigger at_distance(g, gsx, gsy, x, y, 0)]
            in_grid(g, x, y) && at_distance(g, gsx, gsy, x, y, 0) implies buffer_a@.contains(
            (x as usize, y as usize),
        ) by {
            assert(buffer_a@[0] == (x as usize, y as usize));
        }
        lemma_grid_free_bound(g, width as int);
        assert(g[gsy][gsx] != INFINITY);
    }
    loop
        invariant
            same_shape(g, grid_view(distances@)),
            0 <= current_dist,
            settled_exact(g, gsx, gsy, grid_view(distances@), current_dist as nat),
            frontier(g, gsx, gsy, buffer_a@, current_dist as nat),
            buffer_a@.len() > 0,
            buffer_b@.len() == 0,
            examined_ok(g, gsx, gsy, grid_view(distances@), examined, current_dist as nat),
            covered(g, gsx, gsy, examined, current_dist as nat),
            current_dist + grid_free_count(grid_view(distances@)) <= area - 1,
            sweep_all(grid_view(distances@), cells(buffer_a@), current_dist as int, (area - current_dist) as nat) == outcome,
        decreases area - current_dist,
    {
        let ghost l: nat = current_dist as nat;
        let ghost a0 = buffer_a@;
        let ghost free0 = grid_free_count(grid_view(distances@));
        let ghost cur_start = grid_view(distances@);
        current_dist = current_dist + 1;
        let ghost layer_goal = sweep_layer(cur_start, cells(a0), Seq::empty(), current_dist as int);
        assert(cells(buffer_b@) =~= Seq::<(int, int)>::empty());
        loop
            invariant
                same_shape(g, grid_view(distances@)),
                current_dist == l + 1,
                buffer_a@.len() <= a0.len(),
                buffer_a@ == a0.subrange(0, buffer_a@.len() as int),
                settled_upto(g, gsx, gsy, grid_view(distances@), l),
                next_ok(g, gsx, gsy, grid_view(distances@), buffer_b@, l),
                examined_ok(g, gsx, gsy, grid_view(distances@), examined, l),
                covered(g, gsx, gsy, examined, l),
                forall|j: int|
                    #![trigger a0[j]]
                    buffer_a@.len() <= j < a0.len() ==> neighbors_examined(
                        examined,
                        a0[j].0 as int,
                        a0[j].1 as int,
                    ),
                grid_free_count(grid_view(distances@)) + buffer_b@.len() == free0,
                sweep_layer(grid_view(distances@), cells(buffer_a@), cells(buffer_b@), current_dist as int) == layer_goal,
            decreases buffer_a@.len(),
        {
            let ghost alen = buffer_a@.len();
            let ghost before_pop = buffer_a@;
            let popped = buffer_a.pop();
            match popped {
                None => {
                    break;
                },
                Some(cell) => {
                    let (cx, cy) = cell;
                    proof {
                        assert(cell == a0[alen - 1]);
                        assert(buffer_a@ =~= a0.subrange(0, buffer_a@.len() as int));
                        assert(cells(before_pop).last() == (cx as int, cy as int));
                        assert(cells(before_pop).drop_last() =~= cells(buffer_a@));
                    }
                    for k in 0..4
                        invariant
                            same_shape(g, grid_view(distances@)),
                            buffer_a@ == a0.subrange(0, buffer_a@.len() as int),
                            buffer_a@.len() == alen - 1,
                            alen <= a0.len(),
                            settled_upto(g, gsx, gsy, grid_view(distances@), l),
                            next_ok(g, gsx, gsy, grid_view(distances@), buffer_b@, l),
                            examined_ok(g, gsx, gsy, grid_view(distances@), examined, l),
                            covered(g, gsx, gsy, examined, l),
                            forall|j: int|
                                #![trigger a0[j]]
                                alen <= j < a0.len() ==> neighbors_examined(
                                    examined,
                                    a0[j].0 as int,
                                    a0[j].1 as int,
                                ),
                            forall|kk: int|
                                0 <= kk < k ==> examined.contains(
                                    #[trigger] neighbor(cx as int, cy as int, kk),
                                ),
                            grid_free_count(grid_view(distances@)) + buffer_b@.len() == free0,
                            resume(grid_view(distances@), cells(buffer_b@), cx as int, cy as int, k as int, cells(buffer_a@), current_dist as int) == layer_goal,
                    {
                        let ghost old_cur = grid_view(distances@);
                        let ghost old_next = cells(buffer_b@);
                        let ghost old_examined = examined;
                        let found = relax(
                            &mut distances,
                            &mut buffer_b,
                            cx,
                            cy,
                            k,
                            width,
                            height,
                            current_dist,
                            Ghost(g),
                            Ghost(gsx),
                            Ghost(gsy),
                            Ghost(l),
                        );
                        match found {
                            Some(p) => {
                                proof {
                                    lemma_found(g, gsx, gsy, grid_view(distances@), examined, l, cx as int, cy as int, k as int, p.0 as int, p.1 as int);
                                    assert(found_target(g, gsx, gsy, grid_view(distances@), p.0 as int, p.1 as int, l));
                                    assert(stopped_at_target(g, gsx, gsy, grid_view(distances@), p.0 as int, p.1 as int));
                                    assert(visit_from(old_cur, old_next, cx as int, cy as int, k as int, current_dist as int) == Sweep::Stopped(old_cur, (p.0 as int, p.1 as int)));
                                    assert(layer_goal == Sweep::Stopped(old_cur, (p.0 as int, p.1 as int)));
                                }
                                return (distances, Some(p));
                            },
                            None => {},
                        }
                        proof {
                            assert(visit_from(old_cur, old_next, cx as int, cy as int, k as int, current_dist as int)
                                == visit_from(grid_view(distances@), cells(buffer_b@), cx as int, cy as int, k + 1, current_dist as int));
                            let c = neighbor(cx as int, cy as int, k as int);
                            examined = examined.insert(c);
                            let cur = grid_view(distances@);
                            assert forall|e: (int, int)|
                                #![trigger examined.contains(e)]
                                examined.contains(e) && in_grid(g, e.0, e.1) implies {
                                &&& !is_target(g, e.0, e.1)
                                &&& is_open(g, e.0, e.1) ==> reached(g, gsx, gsy, e.0, e.1, l)
                                    || cur[e.1][e.0] == l + 1
                            } by {
                                if e != c {
                                    assert(old_examined.contains(e));
                                    assert(cur[e.1][e.0] == old_cur[e.1][e.0] || (old_cur[e.1][e.0] == INFINITY && cur[e.1][e.0] == l + 1));
                                }
                            }
                            assert forall|j: int|
                                #![trigger a0[j]]
                                alen <= j < a0.len() implies neighbors_examined(
                                    examined,
                                    a0[j].0 as int,
                                    a0[j].1 as int,
                                ) by {
                                assert(neighbors_examined(old_examined, a0[j].0 as int, a0[j].1 as int));
                            }
                            assert forall|x: int, y: int|
                                #![trigger reached(g, gsx, gsy, x, y, (l - 1) as nat)]
                                l > 0 && reached(g, gsx, gsy, x, y, (l - 1) as nat) implies neighbors_examined(examined, x, y) by {
                                assert(neighbors_examined(old_examined, x, y));
                            }
                        }
                    }
                    proof {
                        assert(cell == a0[alen - 1]);
                        assert(neighbors_examined(examined, cx as int, cy as int));
                    }
                },
            }
        }
        assert(layer_goal == Sweep::Going(grid_view(distances@), cells(buffer_b@)));
        std::mem::swap(&mut buffer_a, &mut buffer_b);
        proof {
            lemma_layer_done(g, gsx, gsy, grid_view(distances@), examined, a0, buffer_a@, l, width as int, height as int);
        }
        if buffer_a.len() == 0 {
            proof {
                lemma_search_finished(g, gsx, gsy, grid_view(distances@), examined, l);
            }
            break;
        }
    }
    (distances, None)
}

proof fn lemma_found(
    g: Seq<Seq<i32>>,
    sx: int,
    sy: int,
    cur: Seq<Seq<i32>>,
    examined: Set<(int, int)>,
    l: nat,
    cx: int,
    cy: int,
    k: int,
    px: int,
    py: int,
)
    requires
        reached(g, sx, sy, cx, cy, l),
        0 <= k < 4,
        neighbor(cx, cy, k) == (px, py),
        is_target(g, px, py),
        settled_upto(g, sx, sy, cur, l),
        examined_ok(g, sx, sy, cur, examined, l),
        covered(g, sx, sy, examined, l),
    ensures
        found_target(g, sx, sy, cur, px, py, l),
{
    lemma_neighbor_back(cx, cy, k);
    lemma_touches_neighbor(g, sx, sy, px, py, l);
    assert(reached(g, sx, sy, neighbor(px, py, opposite(k)).0, neighbor(px, py, opposite(k)).1, l));
    if l > 0 {
        let p = (l - 1) as nat;
        assert forall|x: int, y: int| #[trigger] is_target(g, x, y) implies !touches(g, sx, sy, x, y, p) by {
            lemma_touches_neighbor(g, sx, sy, x, y, p);
            if touches(g, sx, sy, x, y, p) {
                let k0 = choose|k0: int|
                    0 <= k0 < 4 && #[trigger] reached(
                        g,
                        sx,
                        sy,
                        neighbor(x, y, k0).0,
                        neighbor(x, y, k0).1,
                        p,
                    );
                let n = neighbor(x, y, k0);
                lemma_neighbor_back(x, y, k0);
                assert(neighbors_examined(examined, n.0, n.1));
                assert(examined.contains(neighbor(n.0, n.1, opposite(k0))));
            }
        }
    }
}

proof fn lemma_layer_done(
    g: Seq<Seq<i32>>,
    sx: int,
    sy: int,
    cur: Seq<Seq<i32>>,
    examined: Set<(int, int)>,
    a0: Seq<(usize, usize)>,
    next: Seq<(usize, usize)>,
    l: nat,
    w: int,
    h: int,
)
    requires
        search_grid(g, w, h, sx, sy),
        w <= 65535,
        h <= 65535,
        l + 1 < RESSOURCE,
        settled_upto(g, sx, sy, cur, l),
        next_ok(g, sx, sy, cur, next, l),
        examined_ok(g, sx, sy, cur, examined, l),
        covered(g, sx, sy, examined, l),
        frontier(g, sx, sy, a0, l),
        forall|j: int|
            #![trigger a0[j]]
            0 <= j < a0.len() ==> neighbors_examined(examined, a0[j].0 as int, a0[j].1 as int),
    ensures
        settled_exact(g, sx, sy, cur, l + 1),
        frontier(g, sx, sy, next, l + 1),
        examined_ok(g, sx, sy, cur, examined, l + 1),
        covered(g, sx, sy, examined, l + 1),
        next.len() == 0 ==> forall|x: int, y: int|
            #[trigger] reached(g, sx, sy, x, y, l + 1) ==> reached(g, sx, sy, x, y, l),
{
    // the neighbours of every cell at distance l have been examined
    assert forall|x: int, y: int| at_distance(g, sx, sy, x, y, l) implies neighbors_examined(examined, x, y) by {
        lemma_reached_cell(g, sx, sy, x, y, l);
        assert(in_grid(g, x, y));
        assert(g[y].len() == w);
        assert(a0.contains((x as usize, y as usize)));
        let j = choose|j: int| 0 <= j < a0.len() && a0[j] == (x as usize, y as usize);
        assert(a0[j].0 as int == x && a0[j].1 as int == y);
        assert(neighbors_examined(examined, a0[j].0 as int, a0[j].1 as int));
    }
    // every cell at distance l + 1 already holds l + 1
    assert forall|x: int, y: int|
        in_grid(g, x, y) && at_distance(g, sx, sy, x, y, l + 1) implies cur[y][x] == l + 1 by {
        lemma_reached_step(g, sx, sy, x, y, l);
        lemma_touches_neighbor(g, sx, sy, x, y, l);
        let k0 = choose|k0: int|
            0 <= k0 < 4 && #[trigger] reached(g, sx, sy, neighbor(x, y, k0).0, neighbor(x, y, k0).1, l);
        let n = neighbor(x, y, k0);
        if l > 0 && reached(g, sx, sy, n.0, n.1, (l - 1) as nat) {
            lemma_touches_neighbor(g, sx, sy, x, y, (l - 1) as nat);
            lemma_reached_step(g, sx, sy, x, y, (l - 1) as nat);
            assert(((l - 1) as nat) + 1 == l);
        }
        assert(at_distance(g, sx, sy, n.0, n.1, l));
        assert(neighbors_examined(examined, n.0, n.1));
        lemma_neighbor_back(x, y, k0);
        assert(examined.contains(neighbor(n.0, n.1, opposite(k0))));
    }
    assert forall|x: int, y: int|
        #![trigger cur[y][x]]
        in_grid(g, x, y) implies {
        &&& reached(g, sx, sy, x, y, l + 1) ==> 0 <= cur[y][x] <= l + 1 && at_distance(
            g,
            sx,
            sy,
            x,
            y,
            cur[y][x] as nat,
        )
        &&& !reached(g, sx, sy, x, y, l + 1) ==> cur[y][x] == g[y][x] || (cur[y][x] == l + 2
            && at_distance(g, sx, sy, x, y, l + 2))
    } by {
        if reached(g, sx, sy, x, y, l + 1) && !reached(g, sx, sy, x, y, l) {
            assert(at_distance(g, sx, sy, x, y, l + 1));
        }
        if !reached(g, sx, sy, x, y, l + 1) {
            lemma_reached_step(g, sx, sy, x, y, l);
            if cur[y][x] == l + 1 {
                assert(at_distance(g, sx, sy, x, y, l + 1));
            }
        }
    }
    assert forall|x: int, y: int|
        #![trigger cur[y][x]]
        in_grid(g, x, y) && !reached(g, sx, sy, x, y, l + 1) implies cur[y][x] == g[y][x] by {
        if reached(g, sx, sy, x, y, l) {
            lemma_reached_mono(g, sx, sy, x, y, l, l + 1);
        }
    }
    assert forall|x: int, y: int|
        #![trigger at_distance(g, sx, sy, x, y, l + 1)]
        in_grid(g, x, y) && at_distance(g, sx, sy, x, y, l + 1) implies next.contains(
        (x as usize, y as usize),
    ) by {
        assert(cur[y][x] == l + 1);
    }
    assert forall|c: (int, int)|
        #![trigger examined.contains(c)]
        examined.contains(c) && in_grid(g, c.0, c.1) implies {
        &&& !is_target(g, c.0, c.1)
        &&& is_open(g, c.0, c.1) ==> reached(g, sx, sy, c.0, c.1, l + 1) || cur[c.1][c.0] == l + 2
    } by {
        if is_open(g, c.0, c.1) {
            if reached(g, sx, sy, c.0, c.1, l) {
                lemma_reached_mono(g, sx, sy, c.0, c.1, l, l + 1);
            } else {
                assert(cur[c.1][c.0] == l + 1);
            }
        }
    }
    assert forall|x: int, y: int|
        #![trigger reached(g, sx, sy, x, y, ((l + 1) - 1) as nat)]
        l + 1 > 0 && reached(g, sx, sy, x, y, ((l + 1) - 1) as nat) implies neighbors_examined(examined, x, y) by {
        assert(((l + 1) - 1) as nat == l);
        if !(l > 0 && reached(g, sx, sy, x, y, (l - 1) as nat)) {
            assert(at_distance(g, sx, sy, x, y, l));
        }
    }
    if next.len() == 0 {
        assert forall|x: int, y: int|
            #[trigger] reached(g, sx, sy, x, y, l + 1) implies reached(g, sx, sy, x, y, l) by {
            if !reached(g, sx, sy, x, y, l) {
                lemma_reached_cell(g, sx, sy, x, y, l + 1);
                assert(at_distance(g, sx, sy, x, y, l + 1));
                assert(next.contains((x as usize, y as usize)));
            }
        }
    }
}

proof fn lemma_search_finished(
    g: Seq<Seq<i32>>,
    sx: int,
    sy: int,
    cur: Seq<Seq<i32>>,
    examined: Set<(int, int)>,
    l: nat,
)
    requires
        settled_exact(g, sx, sy, cur, l + 1),
        examined_ok(g, sx, sy, cur, examined, l + 1),
        covered(g, sx, sy, examined, l + 1),
        forall|x: int, y: int|
            #[trigger] reached(g, sx, sy, x, y, l + 1) ==> reached(g, sx, sy, x, y, l),
    ensures
        full_distances(g, sx, sy, cur),
        forall|n: nat| no_target_touched(g, sx, sy, n),
{
    assert forall|x: int, y: int, m: nat| #[trigger] reached(g, sx, sy, x, y, m) implies reached(
        g,
        sx,
        sy,
        x,
        y,
        l,
    ) by {
        if m >= l {
            lemma_saturated(g, sx, sy, l, m);
        } else {
            lemma_reached_mono(g, sx, sy, x, y, m, l);
        }
    }
    assert forall|x: int, y: int|
        #![trigger cur[y][x]]
        in_grid(g, x, y) implies {
        &&& forall|n: nat| #[trigger] at_distance(g, sx, sy, x, y, n) ==> cur[y][x] == n
        &&& !reachable(g, sx, sy, x, y) ==> cur[y][x] == g[y][x]
    } by {
        assert forall|n: nat| #[trigger] at_distance(g, sx, sy, x, y, n) implies cur[y][x] == n by {
            if n <= l + 1 {
                lemma_reached_mono(g, sx, sy, x, y, n, l + 1);
                lemma_distance_unique(g, sx, sy, x, y, n, cur[y][x] as nat);
            } else {
                assert(reached(g, sx, sy, x, y, l));
                lemma_reached_mono(g, sx, sy, x, y, l, (n - 1) as nat);
            }
        }
        if !reachable(g, sx, sy, x, y) {
            assert(!reached(g, sx, sy, x, y, l + 1));
        }
    }
    assert forall|n: nat| no_target_touched(g, sx, sy, n) by {
        assert forall|x: int, y: int| #[trigger] is_target(g, x, y) implies !touches(g, sx, sy, x, y, n) by {
            lemma_touches_neighbor(g, sx, sy, x, y, n);
            if touches(g, sx, sy, x, y, n) {
                let k0 = choose|k0: int|
                    0 <= k0 < 4 && #[trigger] reached(
                        g,
                        sx,
                        sy,
                        neighbor(x, y, k0).0,
                        neighbor(x, y, k0).1,
                        n,
                    );
                let nb = neighbor(x, y, k0);
                assert(reached(g, sx, sy, nb.0, nb.1, l));
                assert(((l + 1) - 1) as nat == l);
                assert(neighbors_examined(examined, nb.0, nb.1));
                lemma_neighbor_back(x, y, k0);
                assert(examined.contains(neighbor(nb.0, nb.1, opposite(k0))));
            }
        }
    }
}

} // verus!
