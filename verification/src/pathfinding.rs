//! Pathfinding on the game map: the search grid built from the game state,
//! the distance search towards challenges, and the step towards the nearest one.

use vstd::prelude::*;

use crate::bfs::{bfs_run, found_cell, neighbor_offset, search_result, set_cell};
use crate::grid::{
    distance_grid, found_target, full_distances, grid_view, in_grid, is_open, is_target,
    lemma_first_distance, lemma_full_is_distance_grid, lemma_neighbor_back, lemma_reached_cell,
    lemma_reach_but_start, lemma_reached_fewer_open, lemma_reached_mono, lemma_touches_mono, lemma_reached_step, lemma_reached_symmetric,
    lemma_touches_neighbor, nearest_target, neighbor, no_target_touched,
    opposite, reachable, reached, same_shape, search_grid, stopped_at_target, touches, INFINITY,
    OBSTACLE, RESSOURCE, at_distance,
};
use crate::id::EntityId;
use crate::protocol::PowChallenge;
use crate::state::{AgentInfo, GameState, ResourceInfo};

verus! {

/// Some obstacle among the first `n` lies at `(x, y)`.
pub open spec fn obstacle_at(obstacles: Seq<(u16, u16)>, n: int, x: int, y: int) -> bool {
    exists|i: int| 0 <= i < n && obstacles[i].0 == x && obstacles[i].1 == y
}

/// Some challenge among the first `n` lies at `(x, y)`.
pub open spec fn challenge_at(challenges: Seq<PowChallenge>, n: int, x: int, y: int) -> bool {
    exists|i: int| 0 <= i < n && challenges[i].x == x && challenges[i].y == y
}

/// Some agent among the first `n` stands at `(x, y)`.
pub open spec fn agent_at(agents: Seq<AgentInfo>, n: int, x: int, y: int) -> bool {
    exists|i: int| 0 <= i < n && agents[i].x == x && agents[i].y == y
}

/// The value a cell starts the search with: 0 at the start, an obstacle under
/// an agent, a challenge marker (when the search stops at challenges), an
/// obstacle, or "not reached".
pub open spec fn start_cell(state: GameState, sx: int, sy: int, stop: bool, x: int, y: int) -> i32 {
    if x == sx && y == sy {
        0
    } else if agent_at(state.agents@, state.agents@.len() as int, x, y) {
        OBSTACLE
    } else if stop && challenge_at(state.pow_challenge@, state.pow_challenge@.len() as int, x, y) {
        RESSOURCE
    } else if obstacle_at(state.obstacles@, state.obstacles@.len() as int, x, y) {
        OBSTACLE
    } else {
        INFINITY
    }
}

/// The grid the search starts from: `height` rows of `width` cells.
pub open spec fn start_grid(state: GameState, sx: int, sy: int, stop: bool) -> Seq<Seq<i32>> {
    Seq::new(
        state.map_size.1 as nat,
        |y: int| Seq::new(state.map_size.0 as nat, |x: int| start_cell(state, sx, sy, stop, x, y)),
    )
}

/// Number of rows, and of cells in a row, of the distance grids handed out.
pub const GRID_SIZE: usize = 100;

/// The map fits the `GRID_SIZE` × `GRID_SIZE` grid, and the start, the
/// obstacles, the agents and (when they are marked) the challenges lie inside
/// the map.
pub open spec fn search_fits(state: GameState, sx: int, sy: int, stop: bool) -> bool {
    let w = state.map_size.0 as int;
    let h = state.map_size.1 as int;
    &&& w <= GRID_SIZE
    &&& h <= GRID_SIZE
    &&& 0 <= sx < w
    &&& 0 <= sy < h
    &&& forall|i: int|
        0 <= i < state.obstacles@.len() ==> #[trigger] state.obstacles@[i].0 < w
            && state.obstacles@[i].1 < h
    &&& forall|i: int|
        0 <= i < state.agents@.len() ==> #[trigger] state.agents@[i].x < w && state.agents@[i].y < h
    &&& stop ==> forall|i: int|
        0 <= i < state.pow_challenge@.len() ==> #[trigger] state.pow_challenge@[i].x < w
            && state.pow_challenge@[i].y < h
}

spec fn grid_is(cur: Seq<Seq<i32>>, w: int, h: int, f: spec_fn(int, int) -> i32) -> bool {
    &&& cur.len() == h
    &&& forall|y: int| 0 <= y < h ==> #[trigger] cur[y].len() == w
    &&& forall|x: int, y: int| 0 <= x < w && 0 <= y < h ==> #[trigger] cur[y][x] == f(x, y)
}

proof fn lemma_mark(cur: Seq<Seq<i32>>, w: int, h: int, f: spec_fn(int, int) -> i32, f2: spec_fn(int, int) -> i32, x0: int, y0: int, v: i32)
    requires
        grid_is(cur, w, h, f),
        0 <= x0 < w,
        0 <= y0 < h,
        f2(x0, y0) == v,
        forall|x: int, y: int| 0 <= x < w && 0 <= y < h && !(x == x0 && y == y0) ==> #[trigger] f2(x, y) == f(x, y),
    ensures
        grid_is(cur.update(y0, cur[y0].update(x0, v)), w, h, f2),
{
    let c2 = cur.update(y0, cur[y0].update(x0, v));
    assert forall|x: int, y: int| 0 <= x < w && 0 <= y < h implies #[trigger] c2[y][x] == f2(x, y) by {
        if y != y0 {
            assert(c2[y] == cur[y]);
        }
    }
    assert forall|y: int| 0 <= y < h implies #[trigger] c2[y].len() == w by {
        if y != y0 {
            assert(c2[y] == cur[y]);
        }
    }
}

/// Builds the grid the search starts from.
#[verifier::loop_isolation(false)]
fn initial_grid(state: &GameState, sx: usize, sy: usize, stop: bool) -> (grid: Vec<Vec<i32>>)
    requires
        search_fits(*state, sx as int, sy as int, stop),
    ensures
        grid_view(grid@) == start_grid(*state, sx as int, sy as int, stop),
{
    let width = state.map_size.0 as usize;
    let height = state.map_size.1 as usize;
    let ghost w = width as int;
    let ghost h = height as int;
    let ghost obs = state.obstacles@;
    let ghost chs = state.pow_challenge@;
    let ghost ags = state.agents@;
    let mut grid: Vec<Vec<i32>> = Vec::new();
    let mut y: usize = 0;
    while y < height
        invariant
            y <= height,
            grid@.len() == y,
            forall|r: int| 0 <= r < y ==> #[trigger] grid@[r]@ == Seq::new(w as nat, |x: int| INFINITY),
        decreases height - y,
    {
        let mut row: Vec<i32> = Vec::new();
        let mut x: usize = 0;
        while x < width
            invariant
                x <= width,
                row@ == Seq::new(x as nat, |i: int| INFINITY),
            decreases width - x,
        {
            row.push(INFINITY);
            x = x + 1;
            assert(row@ =~= Seq::new(x as nat, |i: int| INFINITY));
        }
        grid.push(row);
        assert(grid@[y as int]@ == Seq::new(w as nat, |x: int| INFINITY));
        y = y + 1;
    }
    let ghost f0 = |x: int, y: int| INFINITY;
    assert(grid_is(grid_view(grid@), w, h, f0));
    let ghost fo = |x: int, y: int| if obstacle_at(obs, obs.len() as int, x, y) { OBSTACLE } else { INFINITY };
    let mut i: usize = 0;
    while i < state.obstacles.len()
        invariant
            i <= obs.len(),
            obs == state.obstacles@,
            grid_is(grid_view(grid@), w, h, |x: int, y: int| if obstacle_at(obs, i as int, x, y) { OBSTACLE } else { INFINITY }),
        decreases state.obstacles.len() - i,
    {
        let (ox, oy) = state.obstacles[i];
        let ghost before = |x: int, y: int| if obstacle_at(obs, i as int, x, y) { OBSTACLE } else { INFINITY };
        let ghost after = |x: int, y: int| if obstacle_at(obs, i + 1, x, y) { OBSTACLE } else { INFINITY };
        proof {
            assert(obs[i as int] == (ox, oy));
            assert(ox < w && oy < h);
            assert forall|x: int, y: int| 0 <= x < w && 0 <= y < h && !(x == ox && y == oy) implies #[trigger] after(x, y) == before(x, y) by {
                if obstacle_at(obs, i + 1, x, y) {
                    let j = choose|j: int| 0 <= j < i + 1 && obs[j].0 == x && obs[j].1 == y;
                    assert(j != i);
                }
            }
            assert(obstacle_at(obs, i + 1, ox as int, oy as int));
            lemma_mark(grid_view(grid@), w, h, before, after, ox as int, oy as int, OBSTACLE);
        }
        set_cell(&mut grid, ox as usize, oy as usize, OBSTACLE);
        i = i + 1;
    }
    let ghost fc = |x: int, y: int| if stop && challenge_at(chs, chs.len() as int, x, y) { RESSOURCE } else { fo(x, y) };
    if stop {
        let mut i: usize = 0;
        while i < state.pow_challenge.len()
            invariant
                stop,
                i <= chs.len(),
                chs == state.pow_challenge@,
                grid_is(grid_view(grid@), w, h, |x: int, y: int| if challenge_at(chs, i as int, x, y) { RESSOURCE } else { fo(x, y) }),
            decreases state.pow_challenge.len() - i,
        {
            let cx = state.pow_challenge[i].x;
            let cy = state.pow_challenge[i].y;
            let ghost before = |x: int, y: int| if challenge_at(chs, i as int, x, y) { RESSOURCE } else { fo(x, y) };
            let ghost after = |x: int, y: int| if challenge_at(chs, i + 1, x, y) { RESSOURCE } else { fo(x, y) };
            proof {
                assert(chs[i as int].x < w && chs[i as int].y < h);
                assert forall|x: int, y: int| 0 <= x < w && 0 <= y < h && !(x == cx && y == cy) implies #[trigger] after(x, y) == before(x, y) by {
                    if challenge_at(chs, i + 1, x, y) {
                        let j = choose|j: int| 0 <= j < i + 1 && chs[j].x == x && chs[j].y == y;
                        assert(j != i);
                    }
                }
                assert(challenge_at(chs, i + 1, cx as int, cy as int));
                lemma_mark(grid_view(grid@), w, h, before, after, cx as int, cy as int, RESSOURCE);
            }
            set_cell(&mut grid, cx as usize, cy as usize, RESSOURCE);
            i = i + 1;
        }
        assert(grid_is(grid_view(grid@), w, h, fc));
    } else {
        assert(grid_is(grid_view(grid@), w, h, fc));
    }
    let mut i: usize = 0;
    while i < state.agents.len()
        invariant
            i <= ags.len(),
            ags == state.agents@,
            grid_is(grid_view(grid@), w, h, |x: int, y: int| if agent_at(ags, i as int, x, y) { OBSTACLE } else { fc(x, y) }),
        decreases state.agents.len() - i,
    {
        let ax = state.agents[i].x;
        let ay = state.agents[i].y;
        let ghost before = |x: int, y: int| if agent_at(ags, i as int, x, y) { OBSTACLE } else { fc(x, y) };
        let ghost after = |x: int, y: int| if agent_at(ags, i + 1, x, y) { OBSTACLE } else { fc(x, y) };
        proof {
            assert(ags[i as int].x < w && ags[i as int].y < h);
            assert forall|x: int, y: int| 0 <= x < w && 0 <= y < h && !(x == ax && y == ay) implies #[trigger] after(x, y) == before(x, y) by {
                if agent_at(ags, i + 1, x, y) {
                    let j = choose|j: int| 0 <= j < i + 1 && ags[j].x == x && ags[j].y == y;
                    assert(j != i);
                }
            }
            assert(agent_at(ags, i + 1, ax as int, ay as int));
            lemma_mark(grid_view(grid@), w, h, before, after, ax as int, ay as int, OBSTACLE);
        }
        set_cell(&mut grid, ax as usize, ay as usize, OBSTACLE);
        i = i + 1;
    }
    let ghost fa = |x: int, y: int| if agent_at(ags, ags.len() as int, x, y) { OBSTACLE } else { fc(x, y) };
    let ghost fs = |x: int, y: int| start_cell(*state, sx as int, sy as int, stop, x, y);
    proof {
        assert forall|x: int, y: int| 0 <= x < w && 0 <= y < h && !(x == sx && y == sy) implies #[trigger] fs(x, y) == fa(x, y) by {}
        lemma_mark(grid_view(grid@), w, h, fa, fs, sx as int, sy as int, 0);
    }
    set_cell(&mut grid, sx, sy, 0);
    proof {
        let sg = start_grid(*state, sx as int, sy as int, stop);
        let cur = grid_view(grid@);
        assert forall|y: int| 0 <= y < h implies #[trigger] cur[y] =~= sg[y] by {}
        assert(cur =~= sg);
    }
    grid
}

/// The breadth-first search over the cells of the map only.
fn map_search(
    state: &GameState,
    start_x: u16,
    start_y: u16,
    stop_when_ressource: bool,
) -> (res: (Vec<Vec<i32>>, Option<(u16, u16)>))
    requires
        search_fits(*state, start_x as int, start_y as int, stop_when_ressource),
    ensures
        (grid_view(res.0@), found_cell(res.1)) == search_result(
            start_grid(*state, start_x as int, start_y as int, stop_when_ressource),
            start_x as int,
            start_y as int,
        ),
        same_shape(
            start_grid(*state, start_x as int, start_y as int, stop_when_ressource),
            grid_view(res.0@),
        ),
        !stop_when_ressource ==> res.1 is None,
        forall|x: int, y: int|
            0 <= x < state.map_size.0 && 0 <= y < state.map_size.1 && agent_at(
                state.agents@,
                state.agents@.len() as int,
                x,
                y,
            ) && !(x == start_x && y == start_y) ==> #[trigger] grid_view(res.0@)[y][x] == OBSTACLE,
        res.1 matches Some(p) ==> nearest_by_walking(
            *state,
            start_x as int,
            start_y as int,
            p.0 as int,
            p.1 as int,
        ),
        match res.1 {
            None => {
                &&& full_distances(
                    start_grid(*state, start_x as int, start_y as int, stop_when_ressource),
                    start_x as int,
                    start_y as int,
                    grid_view(res.0@),
                )
                &&& forall|n: nat|
                    no_target_touched(
                        start_grid(*state, start_x as int, start_y as int, stop_when_ressource),
                        start_x as int,
                        start_y as int,
                        n,
                    )
            },
            Some(p) => stopped_at_target(
                start_grid(*state, start_x as int, start_y as int, stop_when_ressource),
                start_x as int,
                start_y as int,
                grid_view(res.0@),
                p.0 as int,
                p.1 as int,
            ),
        },
{
    let width = state.map_size.0 as usize;
    let height = state.map_size.1 as usize;
    let sx = start_x as usize;
    let sy = start_y as usize;
    let distances = initial_grid(state, sx, sy, stop_when_ressource);
    let ghost g = start_grid(*state, sx as int, sy as int, stop_when_ressource);
    assert(search_grid(g, width as int, height as int, sx as int, sy as int));
    assert(height * width <= 10000) by (nonlinear_arith)
        requires
            width <= 100,
            height <= 100,
    ;
    let res = bfs_run(distances, sx, sy, width, height);
    proof {
        let cur = grid_view(res.0@);
        assert forall|x: int, y: int|
            0 <= x < state.map_size.0 && 0 <= y < state.map_size.1 && agent_at(
                state.agents@,
                state.agents@.len() as int,
                x,
                y,
            ) && !(x == start_x && y == start_y) implies #[trigger] cur[y][x] == OBSTACLE by {
            law_agent_cells_blocked(*state, sx as int, sy as int, stop_when_ressource, x, y);
            lemma_blocked_cell_kept(g, sx as int, sy as int, cur, x, y);
        }
        if let Some(p) = res.1 {
            let l = choose|l: nat| found_target(g, sx as int, sy as int, grid_view(res.0@), p.0 as int, p.1 as int, l);
            if !stop_when_ressource {
                assert(is_target(g, p.0 as int, p.1 as int));
            }
            law_search_stops_at_nearest_challenge(*state, sx as int, sy as int, cur, p.0 as int, p.1 as int);
            assert(is_target(g, p.0 as int, p.1 as int));
        }
    }
    res
}

/// The distance grid of the map: what the search from `(sx, sy)` leaves in
/// each cell of the map, row `y` holding the cells `x` of that row.
pub open spec fn map_distances(state: GameState, sx: int, sy: int, stop: bool) -> Seq<Seq<i32>> {
    search_result(start_grid(state, sx, sy, stop), sx, sy).0
}

/// A grid laid into `GRID_SIZE` rows of `GRID_SIZE` cells; the cells it does
/// not cover are "not reached".
pub open spec fn fixed_grid(g: Seq<Seq<i32>>) -> Seq<Seq<i32>> {
    Seq::new(
        GRID_SIZE as nat,
        |y: int|
            Seq::new(
                GRID_SIZE as nat,
                |x: int|
                    if in_grid(g, x, y) {
                        g[y][x]
                    } else {
                        INFINITY
                    },
            ),
    )
}

/// Copies `grid` into a `GRID_SIZE` × `GRID_SIZE` grid, filling the rest with
/// "not reached".
fn to_fixed_size(grid: &Vec<Vec<i32>>) -> (fixed: Vec<Vec<i32>>)
    ensures
        grid_view(fixed@) == fixed_grid(grid_view(grid@)),
{
    let ghost g = grid_view(grid@);
    let mut fixed: Vec<Vec<i32>> = Vec::new();
    let mut y: usize = 0;
    while y < GRID_SIZE
        invariant
            y <= GRID_SIZE,
            g == grid_view(grid@),
            fixed@.len() == y,
            forall|r: int| 0 <= r < y ==> #[trigger] fixed@[r]@ == fixed_grid(g)[r],
        decreases GRID_SIZE - y,
    {
        let mut row: Vec<i32> = Vec::new();
        let mut x: usize = 0;
        while x < GRID_SIZE
            invariant
                x <= GRID_SIZE,
                y < GRID_SIZE,
                g == grid_view(grid@),
                row@ == fixed_grid(g)[y as int].take(x as int),
            decreases GRID_SIZE - x,
        {
            let v = if y < grid.len() && x < grid[y].len() {
                grid[y][x]
            } else {
                INFINITY
            };
            proof {
                if y < grid@.len() {
                    assert(g[y as int] == grid@[y as int]@);
                }
            }
            row.push(v);
            x = x + 1;
            assert(row@ =~= fixed_grid(g)[y as int].take(x as int));
        }
        assert(row@ =~= fixed_grid(g)[y as int]);
        fixed.push(row);
        y = y + 1;
    }
    assert(grid_view(fixed@) =~= fixed_grid(g));
    fixed
}

/// Converts the game state into a `GRID_SIZE` × `GRID_SIZE` grid and runs a
/// breadth-first search from `(start_x, start_y)` over the cells of the map.
///
/// Cells start as "not reached" (`INFINITY`), obstacles and agents as
/// `OBSTACLE`, the start as 0; when `stop_when_ressource` holds, challenge
/// cells are marked `RESSOURCE` and the search stops at the first one that
/// lies next to the current layer, returning its position. Cells outside the
/// map stay "not reached"; `dist[y][x]` is the value of cell `(x, y)`.
///
/// Inside the map the result is exactly `search_result` of the start grid:
/// layer by layer, the cells of a layer handled from the last queued to the
/// first, the neighbours of a cell in the order up, down, left, right.
pub fn bfs_distance_grid(
    state: &GameState,
    start_x: u16,
    start_y: u16,
    stop_when_ressource: bool,
) -> (res: (Vec<Vec<i32>>, Option<(u16, u16)>))
    requires
        search_fits(*state, start_x as int, start_y as int, stop_when_ressource),
    ensures
        res.0@.len() == GRID_SIZE,
        forall|y: int| 0 <= y < GRID_SIZE ==> #[trigger] res.0@[y]@.len() == GRID_SIZE,
        grid_view(res.0@) == fixed_grid(
            map_distances(*state, start_x as int, start_y as int, stop_when_ressource),
        ),
        found_cell(res.1) == search_result(
            start_grid(*state, start_x as int, start_y as int, stop_when_ressource),
            start_x as int,
            start_y as int,
        ).1,
        same_shape(
            start_grid(*state, start_x as int, start_y as int, stop_when_ressource),
            map_distances(*state, start_x as int, start_y as int, stop_when_ressource),
        ),
        !stop_when_ressource ==> res.1 is None,
        forall|x: int, y: int|
            0 <= x < state.map_size.0 && 0 <= y < state.map_size.1 && agent_at(
                state.agents@,
                state.agents@.len() as int,
                x,
                y,
            ) && !(x == start_x && y == start_y) ==> #[trigger] res.0@[y]@[x] == OBSTACLE,
        res.1 matches Some(p) ==> nearest_by_walking(
            *state,
            start_x as int,
            start_y as int,
            p.0 as int,
            p.1 as int,
        ),
        match res.1 {
            None => {
                &&& full_distances(
                    start_grid(*state, start_x as int, start_y as int, stop_when_ressource),
                    start_x as int,
                    start_y as int,
                    map_distances(*state, start_x as int, start_y as int, stop_when_ressource),
                )
                &&& forall|n: nat|
                    no_target_touched(
                        start_grid(*state, start_x as int, start_y as int, stop_when_ressource),
                        start_x as int,
                        start_y as int,
                        n,
                    )
            },
            Some(p) => stopped_at_target(
                start_grid(*state, start_x as int, start_y as int, stop_when_ressource),
                start_x as int,
                start_y as int,
                map_distances(*state, start_x as int, start_y as int, stop_when_ressource),
                p.0 as int,
                p.1 as int,
            ),
        },
{
    let (map_dist, found) = map_search(state, start_x, start_y, stop_when_ressource);
    let fixed = to_fixed_size(&map_dist);
    assert(grid_view(fixed@).len() == GRID_SIZE);
    assert forall|y: int| 0 <= y < GRID_SIZE implies #[trigger] fixed@[y]@.len() == GRID_SIZE by {
        assert(grid_view(fixed@)[y] == fixed@[y]@);
    }
    proof {
        let md = grid_view(map_dist@);
        assert forall|x: int, y: int|
            0 <= x < state.map_size.0 && 0 <= y < state.map_size.1 && agent_at(
                state.agents@,
                state.agents@.len() as int,
                x,
                y,
            ) && !(x == start_x && y == start_y) implies #[trigger] fixed@[y]@[x] == OBSTACLE by {
            assert(md[y][x] == OBSTACLE);
            assert(grid_view(fixed@)[y] == fixed@[y]@);
            assert(md.len() == state.map_size.1);
            assert(md[y].len() == state.map_size.0) by {
                assert(start_grid(*state, start_x as int, start_y as int, stop_when_ressource)[y].len()
                    == state.map_size.0);
            }
        }
    }
    (fixed, found)
}

/// Scans the four neighbours of `(x, y)` in order and keeps the first one that
/// holds a distance (a value of at least 0) smaller than every value kept so
/// far (starting from the value of `(x, y)` itself); the result is the best
/// value and the step towards it. Obstacles (-1) are never taken.
pub open spec fn scan_moves(d: Seq<Seq<i32>>, x: int, y: int, w: int, h: int, k: nat) -> (
    int,
    Option<(int, int)>,
)
    decreases k,
{
    if k == 0 {
        (d[y][x] as int, None)
    } else {
        let prev = scan_moves(d, x, y, w, h, (k - 1) as nat);
        let nb = neighbor(x, y, k - 1);
        if 0 <= nb.0 < w && 0 <= nb.1 < h && 0 <= d[nb.1][nb.0] && d[nb.1][nb.0] < prev.0 {
            (d[nb.1][nb.0] as int, Some((nb.0 - x, nb.1 - y)))
        } else {
            prev
        }
    }
}

/// The step from `(x, y)` towards the neighbour with the smallest distance, if
/// any neighbour holds a distance smaller than the value of `(x, y)`.
pub open spec fn best_step(d: Seq<Seq<i32>>, x: int, y: int, w: int, h: int) -> Option<(int, int)> {
    scan_moves(d, x, y, w, h, 4).1
}

/// The first resource of the list that stands at `(x, y)`.
pub open spec fn first_resource_at(resources: Seq<ResourceInfo>, x: int, y: int) -> Option<EntityId> {
    if exists|i: int| 0 <= i < resources.len() && resources[i].x == x && resources[i].y == y {
        let i = choose|i: int|
            0 <= i < resources.len() && resources[i].x == x && resources[i].y == y && forall|j: int|
                0 <= j < i ==> !(resources[j].x == x && resources[j].y == y);
        Some(resources[i].resource_id)
    } else {
        None
    }
}

/// The resource found at a cell is listed at that cell, before any other
/// resource listed there; a cell where none is listed gives none.
pub proof fn law_resource_found_at_its_cell(resources: Seq<ResourceInfo>, x: int, y: int)
    ensures
        match first_resource_at(resources, x, y) {
            Some(id) => exists|i: int|
                0 <= i < resources.len() && #[trigger] resources[i].resource_id == id
                    && resources[i].x == x && resources[i].y == y && forall|j: int|
                    0 <= j < i ==> !(resources[j].x == x && resources[j].y == y),
            None => forall|i: int|
                0 <= i < resources.len() ==> !(#[trigger] resources[i].x == x && resources[i].y == y),
        },
{
    if exists|i: int| 0 <= i < resources.len() && resources[i].x == x && resources[i].y == y {
        let i0 = choose|i: int| 0 <= i < resources.len() && resources[i].x == x && resources[i].y == y;
        lemma_first_listed(resources, x, y, i0);
    }
}

proof fn lemma_first_listed(resources: Seq<ResourceInfo>, x: int, y: int, i: int)
    requires
        0 <= i < resources.len(),
        resources[i].x == x && resources[i].y == y,
    ensures
        exists|c: int|
            0 <= c < resources.len() && resources[c].x == x && resources[c].y == y && forall|j: int|
                0 <= j < c ==> !(resources[j].x == x && resources[j].y == y),
    decreases i,
{
    if exists|j: int| 0 <= j < i && resources[j].x == x && resources[j].y == y {
        let j = choose|j: int| 0 <= j < i && resources[j].x == x && resources[j].y == y;
        lemma_first_listed(resources, x, y, j);
    }
}

fn find_resource_at(resources: &Vec<ResourceInfo>, x: u16, y: u16) -> (id: Option<EntityId>)
    ensures
        id == first_resource_at(resources@, x as int, y as int),
{
    let mut i: usize = 0;
    while i < resources.len()
        invariant
            i <= resources@.len(),
            forall|j: int| 0 <= j < i ==> !(resources@[j].x == x && resources@[j].y == y),
        decreases resources.len() - i,
    {
        if resources[i].x == x && resources[i].y == y {
            proof {
                let c = choose|c: int|
                    0 <= c < resources@.len() && resources@[c].x == x && resources@[c].y == y
                        && forall|j: int| 0 <= j < c ==> !(resources@[j].x == x && resources@[j].y == y);
                if c < i {
                } else if c > i {
                    assert(!(resources@[i as int].x == x && resources@[i as int].y == y));
                }
            }
            return Some(resources[i].resource_id);
        }
        i = i + 1;
    }
    None
}

/// Picks the step from `(x, y)` towards the neighbour with the smallest
/// distance in `dist`, the neighbours taken in the order up, down, left, right;
/// cells that hold no distance (obstacles) are skipped.
fn pick_step(dist: &Vec<Vec<i32>>, x: u16, y: u16, width: u16, height: u16) -> (step: Option<(i32, i32)>)
    requires
        dist@.len() == height,
        forall|r: int| 0 <= r < height ==> #[trigger] dist@[r]@.len() == width,
        x < width,
        y < height,
    ensures
        match best_step(grid_view(dist@), x as int, y as int, width as int, height as int) {
            None => step is None,
            Some(s) => step == Some((s.0 as i32, s.1 as i32)) && -1 <= s.0 <= 1 && -1 <= s.1 <= 1,
        },
{
    let ghost d = grid_view(dist@);
    let mut best_dist = dist[y as usize][x as usize];
    let mut best_move: Option<(i32, i32)> = None;
    assert(scan_moves(d, x as int, y as int, width as int, height as int, 0).0 == best_dist);
    for k in 0..4
        invariant
            dist@.len() == height,
            forall|r: int| 0 <= r < height ==> #[trigger] dist@[r]@.len() == width,
            d == grid_view(dist@),
            x < width,
            y < height,
            scan_moves(d, x as int, y as int, width as int, height as int, k as nat).0 == best_dist,
            match scan_moves(d, x as int, y as int, width as int, height as int, k as nat).1 {
                None => best_move is None,
                Some(s) => best_move == Some((s.0 as i32, s.1 as i32)) && -1 <= s.0 <= 1 && -1 <= s.1
                    <= 1,
            },
    {
        let (dx, dy) = neighbor_offset(k);
        let nx = x as i32 + dx;
        let ny = y as i32 + dy;
        proof {
            assert(((k + 1) - 1) as nat == k as nat);
            assert(neighbor(x as int, y as int, k as int) == (nx as int, ny as int));
        }
        if !(nx < 0 || nx >= width as i32 || ny < 0 || ny >= height as i32) {
            assert(d[ny as int] == dist@[ny as int]@);
            let value = dist[ny as usize][nx as usize];
            if 0 <= value && value < best_dist {
                best_dist = dist[ny as usize][nx as usize];
                best_move = Some((dx, dy));
            }
        }
    }
    best_move
}

proof fn lemma_second_search_fits(state: GameState, px: int, py: int, rx: int, ry: int)
    requires
        search_fits(state, px, py, true),
        is_target(start_grid(state, px, py, true), rx, ry),
    ensures
        search_fits(state, rx, ry, false),
{
    let g = start_grid(state, px, py, true);
    assert(g.len() == state.map_size.1);
    assert(g[ry].len() == state.map_size.0);
}

proof fn lemma_grid_shape(state: GameState, sx: int, sy: int, stop: bool, cur: Seq<Seq<i32>>)
    requires
        same_shape(start_grid(state, sx, sy, stop), cur),
    ensures
        cur.len() == state.map_size.1,
        forall|r: int| 0 <= r < state.map_size.1 ==> #[trigger] cur[r].len() == state.map_size.0,
{
    let g = start_grid(state, sx, sy, stop);
    assert forall|r: int| 0 <= r < state.map_size.1 implies #[trigger] cur[r].len() == state.map_size.0 by {
        assert(cur[r].len() == g[r].len());
    }
}

/// Some nearest challenge `(rx, ry)` (as seen from the agent's position) gives,
/// through the distance grid of a search from it, the step `step` for the agent.
pub open spec fn step_toward_target(state: GameState, rx: int, ry: int, step: Option<(i32, i32)>) -> bool {
    &&& nearest_target(
        start_grid(state, state.position.0 as int, state.position.1 as int, true),
        state.position.0 as int,
        state.position.1 as int,
        rx,
        ry,
    )
    &&& best_step(
        distance_grid(start_grid(state, rx, ry, false), rx, ry),
        state.position.0 as int,
        state.position.1 as int,
        state.map_size.0 as int,
        state.map_size.1 as int,
    ) == match step {
        None => None,
        Some(s) => Some((s.0 as int, s.1 as int)),
    }
}

/// The outcome of `find_closest_resource`: `None` when no challenge can be
/// reached, or when a nearest challenge offers no improving step; otherwise the
/// improving step towards a nearest challenge and the first resource at it.
pub open spec fn closest_resource_result(state: GameState, res: Option<((i32, i32), EntityId)>) -> bool {
    match res {
        None => (forall|n: nat|
            no_target_touched(
                start_grid(state, state.position.0 as int, state.position.1 as int, true),
                state.position.0 as int,
                state.position.1 as int,
                n,
            )) || exists|rx: int, ry: int| #[trigger] step_toward_target(state, rx, ry, None),
        Some(found) => step_and_resource(state, found.0, found.1),
    }
}

/// Some nearest challenge gives the step `step` and holds the resource `id`
/// first among the resources at its cell.
pub open spec fn step_and_resource(state: GameState, step: (i32, i32), id: EntityId) -> bool {
    exists|rx: int, ry: int|
        #[trigger] step_toward_target(state, rx, ry, Some(step)) && first_resource_at(
            state.resources@,
            rx,
            ry,
        ) == Some(id)
}

/// The challenge cell at which the search from the agent's position stops.
pub open spec fn picked_challenge(state: GameState) -> Option<(int, int)> {
    search_result(
        start_grid(state, state.position.0 as int, state.position.1 as int, true),
        state.position.0 as int,
        state.position.1 as int,
    ).1
}

/// What `find_closest_resource` returns: for the challenge the search stops
/// at, the step towards it (from the distance grid of a search from the
/// challenge) and the first resource listed at its cell.
pub open spec fn closest_resource(state: GameState) -> Option<((i32, i32), EntityId)> {
    match picked_challenge(state) {
        None => None,
        Some(r) => match best_step(
            distance_grid(start_grid(state, r.0, r.1, false), r.0, r.1),
            state.position.0 as int,
            state.position.1 as int,
            state.map_size.0 as int,
            state.map_size.1 as int,
        ) {
            None => None,
            Some(s) => Some(((s.0 as i32, s.1 as i32), first_resource_at(state.resources@, r.0, r.1)->0)),
        },
    }
}

/// From the agent's cell, `step` leads onto the challenge `r` or onto a free
/// cell, and the distance to `r` drops by one: it is the first step of a
/// shortest way to `r`.
pub open spec fn shortest_first_step(state: GameState, r: (int, int), step: (i32, i32)) -> bool {
    let d = distance_grid(start_grid(state, r.0, r.1, false), r.0, r.1);
    let (px, py) = (state.position.0 as int, state.position.1 as int);
    let (nx, ny) = (px + step.0, py + step.1);
    &&& (nx == r.0 && ny == r.1) || free_cell(state, nx, ny)
    &&& d[ny][nx] == d[py][px] - 1
}

proof fn lemma_step_toward_challenge(state: GameState, rx: int, ry: int, cur: Seq<Seq<i32>>)
    requires
        search_fits(state, rx, ry, false),
        free_cell(state, state.position.0 as int, state.position.1 as int),
        !(state.position.0 == rx && state.position.1 == ry),
        same_shape(start_grid(state, rx, ry, false), cur),
        full_distances(start_grid(state, rx, ry, false), rx, ry, cur),
        best_step(
            cur,
            state.position.0 as int,
            state.position.1 as int,
            state.map_size.0 as int,
            state.map_size.1 as int,
        ) is Some,
    ensures
        shortest_first_step(
            state,
            (rx, ry),
            ({
                let s = best_step(
                    cur,
                    state.position.0 as int,
                    state.position.1 as int,
                    state.map_size.0 as int,
                    state.map_size.1 as int,
                )->0;
                (s.0 as i32, s.1 as i32)
            }),
        ),
{
    let g = start_grid(state, rx, ry, false);
    let (w, h) = (state.map_size.0 as int, state.map_size.1 as int);
    let (px, py) = (state.position.0 as int, state.position.1 as int);
    assert(search_grid(g, w, h, rx, ry));
    lemma_open_cells(state, rx, ry, px, py);
    law_step_is_shortest(g, rx, ry, cur, w, h, px, py);
    lemma_full_is_distance_grid(g, rx, ry, cur);
    lemma_scan_moves(cur, px, py, w, h, 4);
    let s = best_step(cur, px, py, w, h)->0;
    lemma_open_cells(state, rx, ry, px + s.0, py + s.1);
}

/// Finds the challenge nearest to the agent and the step that brings the
/// agent closer to it, together with the resource id found at the challenge.
///
/// A first search from the agent's position stops at a nearest challenge; a
/// second search from that challenge gives the distances, and the step goes to
/// the first neighbour (up, down, left, right) with the smallest distance below
/// the value of the agent's cell; obstacles and agents, which hold no distance,
/// are never stepped on. `None` when no challenge is reachable or when no
/// neighbour improves.
#[verifier::rlimit(40)]
pub fn find_closest_resource(state: &GameState) -> (res: Option<((i32, i32), EntityId)>)
    requires
        search_fits(*state, state.position.0 as int, state.position.1 as int, true),
        picked_challenge(*state) matches Some(r) ==> first_resource_at(state.resources@, r.0, r.1) is Some,
    ensures
        res == closest_resource(*state),
        closest_resource_result(*state, res),
        picked_challenge(*state) matches Some(r) ==> nearest_by_walking(
            *state,
            state.position.0 as int,
            state.position.1 as int,
            r.0,
            r.1,
        ),
        res matches Some(found) ==> (free_cell(*state, state.position.0 as int, state.position.1 as int)
            ==> shortest_first_step(*state, picked_challenge(*state)->0, found.0)),
{
    let (px, py) = state.position;
    let (_distances, some_ressource) = map_search(state, px, py, true);
    if some_ressource.is_none() {
        return None;
    }
    let best_resource = some_ressource.unwrap();
    let ghost g = start_grid(*state, px as int, py as int, true);
    proof {
        let l = choose|l: nat|
            found_target(g, px as int, py as int, grid_view(_distances@), best_resource.0 as int, best_resource.1 as int, l);
        assert(touches(g, px as int, py as int, best_resource.0 as int, best_resource.1 as int, l));
        assert(nearest_target(g, px as int, py as int, best_resource.0 as int, best_resource.1 as int));
        lemma_second_search_fits(*state, px as int, py as int, best_resource.0 as int, best_resource.1 as int);
    }
    let best_resource_uuid = find_resource_at(&state.resources, best_resource.0, best_resource.1).unwrap();
    let (dist, _) = map_search(state, best_resource.0, best_resource.1, false);
    let ghost g2 = start_grid(*state, best_resource.0 as int, best_resource.1 as int, false);
    proof {
        lemma_full_is_distance_grid(g2, best_resource.0 as int, best_resource.1 as int, grid_view(dist@));
        lemma_grid_shape(*state, best_resource.0 as int, best_resource.1 as int, false, grid_view(dist@));
        assert forall|r: int| 0 <= r < state.map_size.1 implies #[trigger] dist@[r]@.len() == state.map_size.0 by {
            assert(grid_view(dist@)[r] == dist@[r]@);
        }
    }
    let best_move = pick_step(&dist, px, py, state.map_size.0, state.map_size.1);
    let ghost (rx, ry) = (best_resource.0 as int, best_resource.1 as int);
    match best_move {
        None => {
            assert(step_toward_target(*state, rx, ry, None));
            None
        },
        Some(mv) => {
            assert(step_toward_target(*state, rx, ry, Some(mv)));
            proof {
                if free_cell(*state, px as int, py as int) {
                    lemma_step_toward_challenge(*state, rx, ry, grid_view(dist@));
                }
            }
            Some((mv, best_resource_uuid))
        },
    }
}

/// In a finished distance grid the start holds 0.
pub proof fn law_start_holds_zero(g: Seq<Seq<i32>>, sx: int, sy: int, cur: Seq<Seq<i32>>)
    requires
        in_grid(g, sx, sy),
        full_distances(g, sx, sy, cur),
    ensures
        cur[sy][sx] == 0,
{
    assert(at_distance(g, sx, sy, sx, sy, 0));
}

/// In a finished distance grid obstacles keep their marker: they are never crossed.
pub proof fn law_obstacles_kept(g: Seq<Seq<i32>>, sx: int, sy: int, cur: Seq<Seq<i32>>, x: int, y: int)
    requires
        full_distances(g, sx, sy, cur),
        in_grid(g, x, y),
        g[y][x] == OBSTACLE,
        !(x == sx && y == sy),
    ensures
        cur[y][x] == OBSTACLE,
{
    if reachable(g, sx, sy, x, y) {
        let n = choose|n: nat| reached(g, sx, sy, x, y, n);
        lemma_reached_cell(g, sx, sy, x, y, n);
    }
}

/// Breadth-first distances: a free neighbour of a reachable cell is reachable
/// and its distance is at most one more.
pub proof fn law_neighbor_distance(
    g: Seq<Seq<i32>>,
    sx: int,
    sy: int,
    cur: Seq<Seq<i32>>,
    x: int,
    y: int,
    k: int,
)
    requires
        full_distances(g, sx, sy, cur),
        in_grid(g, x, y),
        reachable(g, sx, sy, x, y),
        0 <= k < 4,
        is_open(g, neighbor(x, y, k).0, neighbor(x, y, k).1),
    ensures
        reachable(g, sx, sy, neighbor(x, y, k).0, neighbor(x, y, k).1),
        cur[neighbor(x, y, k).1][neighbor(x, y, k).0] <= cur[y][x] + 1,
{
    let (nx, ny) = neighbor(x, y, k);
    let n0 = choose|n: nat| reached(g, sx, sy, x, y, n);
    lemma_first_distance(g, sx, sy, x, y, n0);
    let d = choose|m: nat| m <= n0 && at_distance(g, sx, sy, x, y, m);
    assert(cur[y][x] == d);
    lemma_neighbor_back(x, y, k);
    lemma_touches_neighbor(g, sx, sy, nx, ny, d);
    assert(reached(g, sx, sy, neighbor(nx, ny, opposite(k)).0, neighbor(nx, ny, opposite(k)).1, d));
    lemma_reached_step(g, sx, sy, nx, ny, d);
    assert(reached(g, sx, sy, nx, ny, d + 1));
    lemma_first_distance(g, sx, sy, nx, ny, d + 1);
    let e = choose|m: nat| m <= d + 1 && at_distance(g, sx, sy, nx, ny, m);
    assert(in_grid(g, nx, ny));
    assert(cur[ny][nx] == e);
}

proof fn lemma_scan_moves(d: Seq<Seq<i32>>, x: int, y: int, w: int, h: int, k: nat)
    requires
        k <= 4,
    ensures
        scan_moves(d, x, y, w, h, k).0 <= d[y][x],
        match scan_moves(d, x, y, w, h, k).1 {
            None => scan_moves(d, x, y, w, h, k).0 == d[y][x],
            Some(s) => {
                &&& 0 <= x + s.0 < w
                &&& 0 <= y + s.1 < h
                &&& (s.0 == 0 || s.1 == 0) && -1 <= s.0 <= 1 && -1 <= s.1 <= 1 && s != (0int, 0int)
                &&& d[y + s.1][x + s.0] == scan_moves(d, x, y, w, h, k).0
                &&& 0 <= scan_moves(d, x, y, w, h, k).0 < d[y][x]
            },
        },
    decreases k,
{
    if k > 0 {
        lemma_scan_moves(d, x, y, w, h, (k - 1) as nat);
    }
}

/// The step towards a target leads to a neighbour inside the map that holds a
/// distance smaller than the value of the cell it leaves.
pub proof fn law_step_descends(d: Seq<Seq<i32>>, x: int, y: int, w: int, h: int)
    requires
        best_step(d, x, y, w, h) is Some,
    ensures
        ({
            let s = best_step(d, x, y, w, h)->0;
            &&& 0 <= x + s.0 < w
            &&& 0 <= y + s.1 < h
            &&& (s.0 == 0) != (s.1 == 0)
            &&& -1 <= s.0 <= 1 && -1 <= s.1 <= 1
            &&& 0 <= d[y + s.1][x + s.0] < d[y][x]
        }),
{
    lemma_scan_moves(d, x, y, w, h, 4);
}

/// In a finished distance grid without challenge markers, the step from a free
/// cell goes to a cell that is not blocked and lies one step closer to the
/// start: it is the first step of a shortest way to the start.
pub proof fn law_step_is_shortest(
    g: Seq<Seq<i32>>,
    sx: int,
    sy: int,
    cur: Seq<Seq<i32>>,
    w: int,
    h: int,
    px: int,
    py: int,
)
    requires
        search_grid(g, w, h, sx, sy),
        forall|x: int, y: int| !#[trigger] is_target(g, x, y),
        same_shape(g, cur),
        full_distances(g, sx, sy, cur),
        is_open(g, px, py),
        best_step(cur, px, py, w, h) is Some,
    ensures
        ({
            let s = best_step(cur, px, py, w, h)->0;
            let (nx, ny) = (px + s.0, py + s.1);
            &&& reachable(g, sx, sy, px, py)
            &&& reachable(g, sx, sy, nx, ny)
            &&& (nx == sx && ny == sy) || is_open(g, nx, ny)
            &&& cur[ny][nx] == cur[py][px] - 1
        }),
{
    lemma_scan_moves(cur, px, py, w, h, 4);
    let s = best_step(cur, px, py, w, h)->0;
    let (nx, ny) = (px + s.0, py + s.1);
    assert(g[ny].len() == w);
    assert(in_grid(g, nx, ny));
    if !reachable(g, sx, sy, nx, ny) {
        assert(cur[ny][nx] == g[ny][nx]);
        assert(!(nx == sx && ny == sy)) by {
            assert(reached(g, sx, sy, sx, sy, 0));
        }
        assert(!is_target(g, nx, ny));
    }
    let n0 = choose|n: nat| reached(g, sx, sy, nx, ny, n);
    lemma_first_distance(g, sx, sy, nx, ny, n0);
    lemma_reached_cell(g, sx, sy, nx, ny, n0);
    let k = if s == (0int, -1int) {
        1int
    } else if s == (0int, 1int) {
        0int
    } else if s == (-1int, 0int) {
        3int
    } else {
        2int
    };
    assert(neighbor(nx, ny, k) == (px, py));
    law_neighbor_distance(g, sx, sy, cur, nx, ny, k);
}

/// A cell of the map that holds no obstacle and no agent.
pub open spec fn free_cell(state: GameState, x: int, y: int) -> bool {
    &&& 0 <= x < state.map_size.0
    &&& 0 <= y < state.map_size.1
    &&& !agent_at(state.agents@, state.agents@.len() as int, x, y)
    &&& !obstacle_at(state.obstacles@, state.obstacles@.len() as int, x, y)
}

/// The map with its obstacles and agents blocked and every other cell free.
pub open spec fn open_map(state: GameState) -> Seq<Seq<i32>> {
    Seq::new(
        state.map_size.1 as nat,
        |y: int|
            Seq::new(
                state.map_size.0 as nat,
                |x: int|
                    if free_cell(state, x, y) {
                        INFINITY
                    } else {
                        OBSTACLE
                    },
            ),
    )
}

proof fn lemma_open_cells(state: GameState, sx: int, sy: int, x: int, y: int)
    ensures
        is_open(start_grid(state, sx, sy, false), x, y) == (free_cell(state, x, y) && !(x == sx
            && y == sy)),
        is_open(open_map(state), x, y) == free_cell(state, x, y),
{
}

/// Without challenge markers, the search from `(sx, sy)` reaches within `n`
/// steps exactly what the free cells of the map let it reach.
proof fn lemma_start_grid_reach(state: GameState, sx: int, sy: int, x: int, y: int, n: nat)
    ensures
        reached(start_grid(state, sx, sy, false), sx, sy, x, y, n) == reached(
            open_map(state),
            sx,
            sy,
            x,
            y,
            n,
        ),
    decreases n,
{
    let g = start_grid(state, sx, sy, false);
    let f = open_map(state);
    assert forall|cx: int, cy: int| #[trigger] is_open(g, cx, cy) implies is_open(f, cx, cy) by {
        lemma_open_cells(state, sx, sy, cx, cy);
    }
    if reached(g, sx, sy, x, y, n) {
        lemma_reached_fewer_open(f, g, sx, sy, x, y, n);
    }
    if n > 0 && reached(f, sx, sy, x, y, n) {
        let m = (n - 1) as nat;
        lemma_reached_step(f, sx, sy, x, y, m);
        lemma_reached_step(g, sx, sy, x, y, m);
        lemma_start_grid_reach(state, sx, sy, x, y, m);
        if x == sx && y == sy {
            lemma_reached_mono(g, sx, sy, x, y, 0, n);
        } else if !reached(f, sx, sy, x, y, m) {
            lemma_open_cells(state, sx, sy, x, y);
            lemma_start_grid_reach(state, sx, sy, x, y - 1, m);
            lemma_start_grid_reach(state, sx, sy, x, y + 1, m);
            lemma_start_grid_reach(state, sx, sy, x - 1, y, m);
            lemma_start_grid_reach(state, sx, sy, x + 1, y, m);
        }
    }
}

proof fn lemma_reach_swapped(state: GameState, ax: int, ay: int, bx: int, by: int, n: nat)
    requires
        free_cell(state, ax, ay),
        reached(start_grid(state, ax, ay, false), ax, ay, bx, by, n),
    ensures
        reached(start_grid(state, bx, by, false), bx, by, ax, ay, n),
{
    lemma_start_grid_reach(state, ax, ay, bx, by, n);
    lemma_open_cells(state, ax, ay, ax, ay);
    lemma_reached_symmetric(open_map(state), ax, ay, bx, by, n);
    lemma_start_grid_reach(state, bx, by, ax, ay, n);
}

/// Distances are symmetric: on one map, the finished distance grid of a
/// search from the free cell `a` holds at `b` what the grid of a search from
/// the free cell `b` holds at `a` (the same distance, or both "not reached").
pub proof fn law_distance_symmetric(
    state: GameState,
    ax: int,
    ay: int,
    bx: int,
    by: int,
    da: Seq<Seq<i32>>,
    db: Seq<Seq<i32>>,
)
    requires
        free_cell(state, ax, ay),
        free_cell(state, bx, by),
        full_distances(start_grid(state, ax, ay, false), ax, ay, da),
        full_distances(start_grid(state, bx, by, false), bx, by, db),
    ensures
        da[by][bx] == db[ay][ax],
{
    let ga = start_grid(state, ax, ay, false);
    let gb = start_grid(state, bx, by, false);
    assert(in_grid(ga, bx, by));
    assert(in_grid(gb, ax, ay));
    if reachable(ga, ax, ay, bx, by) {
        let n0 = choose|n: nat| reached(ga, ax, ay, bx, by, n);
        lemma_first_distance(ga, ax, ay, bx, by, n0);
        let m = choose|m: nat| m <= n0 && #[trigger] at_distance(ga, ax, ay, bx, by, m);
        lemma_reach_swapped(state, ax, ay, bx, by, m);
        if m > 0 && reached(gb, bx, by, ax, ay, (m - 1) as nat) {
            lemma_reach_swapped(state, bx, by, ax, ay, (m - 1) as nat);
        }
        assert(at_distance(gb, bx, by, ax, ay, m));
        assert(da[by][bx] == m);
        assert(db[ay][ax] == m);
    } else {
        if reachable(gb, bx, by, ax, ay) {
            let n = choose|n: nat| reached(gb, bx, by, ax, ay, n);
            lemma_reach_swapped(state, bx, by, ax, ay, n);
            assert(reached(ga, ax, ay, bx, by, n));
        }
        assert(!(ax == bx && ay == by)) by {
            assert(reached(ga, ax, ay, ax, ay, 0));
        }
        assert(da[by][bx] == ga[by][bx]);
        assert(db[ay][ax] == gb[ay][ax]);
    }
}

/// Every obstacle of `obstacles` is still an obstacle once `o` is appended.
pub proof fn lemma_obstacles_kept_by_push(obstacles: Seq<(u16, u16)>, o: (u16, u16))
    ensures
        forall|ox: int, oy: int|
            #[trigger] obstacle_at(obstacles, obstacles.len() as int, ox, oy) ==> obstacle_at(
                obstacles.push(o),
                obstacles.push(o).len() as int,
                ox,
                oy,
            ),
{
    assert forall|ox: int, oy: int|
        #[trigger] obstacle_at(obstacles, obstacles.len() as int, ox, oy) implies obstacle_at(
        obstacles.push(o),
        obstacles.push(o).len() as int,
        ox,
        oy,
    ) by {
        let i = choose|i: int| 0 <= i < obstacles.len() && obstacles[i].0 == ox && obstacles[i].1 == oy;
        assert(obstacles.push(o)[i] == obstacles[i]);
    }
}

/// Adding obstacles never shortens a distance: when `more` is the state with
/// further obstacles (same map, same agents, every obstacle of `state` still
/// listed, in any order), every cell that is free in `more` holds at least the
/// distance it holds without them, "not reached" counting as the largest value.
pub proof fn law_obstacle_never_shortens(
    state: GameState,
    more: GameState,
    sx: int,
    sy: int,
    d: Seq<Seq<i32>>,
    d_more: Seq<Seq<i32>>,
    x: int,
    y: int,
)
    requires
        more.map_size == state.map_size,
        more.agents@ == state.agents@,
        forall|ox: int, oy: int|
            #[trigger] obstacle_at(state.obstacles@, state.obstacles@.len() as int, ox, oy)
                ==> obstacle_at(more.obstacles@, more.obstacles@.len() as int, ox, oy),
        full_distances(start_grid(state, sx, sy, false), sx, sy, d),
        full_distances(start_grid(more, sx, sy, false), sx, sy, d_more),
        free_cell(more, x, y),
    ensures
        d[y][x] <= d_more[y][x],
{
    let g = start_grid(state, sx, sy, false);
    let g2 = start_grid(more, sx, sy, false);
    assert forall|cx: int, cy: int| #[trigger] is_open(g2, cx, cy) implies is_open(g, cx, cy) by {
        lemma_open_cells(more, sx, sy, cx, cy);
        lemma_open_cells(state, sx, sy, cx, cy);
        if obstacle_at(state.obstacles@, state.obstacles@.len() as int, cx, cy) {
            assert(obstacle_at(more.obstacles@, more.obstacles@.len() as int, cx, cy));
        }
    }
    assert(in_grid(g, x, y));
    assert(in_grid(g2, x, y));
    if reachable(g2, sx, sy, x, y) {
        let n0 = choose|n: nat| reached(g2, sx, sy, x, y, n);
        lemma_first_distance(g2, sx, sy, x, y, n0);
        let n2 = choose|m: nat| m <= n0 && #[trigger] at_distance(g2, sx, sy, x, y, m);
        assert(d_more[y][x] == n2);
        lemma_reached_fewer_open(g, g2, sx, sy, x, y, n2);
        lemma_first_distance(g, sx, sy, x, y, n2);
        let n1 = choose|m: nat| m <= n2 && #[trigger] at_distance(g, sx, sy, x, y, m);
        assert(d[y][x] == n1);
    } else {
        assert(!(x == sx && y == sy)) by {
            assert(reached(g2, sx, sy, sx, sy, 0));
        }
        assert(d_more[y][x] == g2[y][x]);
    }
}

/// A challenge the agent at `(sx, sy)` can step onto: inside the map, listed
/// as a challenge, no other agent on it, and not the agent's own cell.
pub open spec fn open_challenge(state: GameState, sx: int, sy: int, x: int, y: int) -> bool {
    &&& 0 <= x < state.map_size.0
    &&& 0 <= y < state.map_size.1
    &&& challenge_at(state.pow_challenge@, state.pow_challenge@.len() as int, x, y)
    &&& !agent_at(state.agents@, state.agents@.len() as int, x, y)
    &&& !(x == sx && y == sy)
}

/// The map a walk towards the challenges crosses: the cells with no obstacle,
/// no other agent and no challenge are free, every other cell is blocked.
pub open spec fn walk_map(state: GameState) -> Seq<Seq<i32>> {
    Seq::new(
        state.map_size.1 as nat,
        |y: int|
            Seq::new(
                state.map_size.0 as nat,
                |x: int|
                    if free_cell(state, x, y) && !challenge_at(
                        state.pow_challenge@,
                        state.pow_challenge@.len() as int,
                        x,
                        y,
                    ) {
                        INFINITY
                    } else {
                        OBSTACLE
                    },
            ),
    )
}

/// No challenge the agent can step onto lies next to a cell that a walk from
/// `(sx, sy)` reaches in fewer than `l` steps.
pub open spec fn no_challenge_closer(state: GameState, sx: int, sy: int, l: nat) -> bool {
    forall|x: int, y: int, m: nat|
        m < l && open_challenge(state, sx, sy, x, y) ==> !#[trigger] touches(
            walk_map(state),
            sx,
            sy,
            x,
            y,
            m,
        )
}

/// `(rx, ry)` is a challenge nearest to `(sx, sy)` on foot: the agent can step
/// onto it, a walk over free cells reaches a cell next to it in some number of
/// steps, and no other such challenge lies next to a cell reached in fewer.
pub open spec fn nearest_by_walking(state: GameState, sx: int, sy: int, rx: int, ry: int) -> bool {
    &&& open_challenge(state, sx, sy, rx, ry)
    &&& exists|l: nat|
        #[trigger] touches(walk_map(state), sx, sy, rx, ry, l) && no_challenge_closer(
            state,
            sx,
            sy,
            l,
        )
}

/// Other agents block every search, whether or not it stops at challenges:
/// the cell of another agent (unless the search starts there) is an obstacle of
/// the search grid, never a free cell nor a challenge to stop at.
pub proof fn law_agent_cells_blocked(state: GameState, sx: int, sy: int, stop: bool, x: int, y: int)
    requires
        0 <= x < state.map_size.0,
        0 <= y < state.map_size.1,
        agent_at(state.agents@, state.agents@.len() as int, x, y),
        !(x == sx && y == sy),
    ensures
        start_grid(state, sx, sy, stop)[y][x] == OBSTACLE,
        !is_open(start_grid(state, sx, sy, stop), x, y),
        !is_target(start_grid(state, sx, sy, stop), x, y),
{
}

proof fn lemma_blocked_cell_kept(g: Seq<Seq<i32>>, sx: int, sy: int, cur: Seq<Seq<i32>>, x: int, y: int)
    requires
        in_grid(g, x, y),
        g[y][x] == OBSTACLE,
        !(x == sx && y == sy),
        full_distances(g, sx, sy, cur) || exists|rx: int, ry: int|
            stopped_at_target(g, sx, sy, cur, rx, ry),
    ensures
        cur[y][x] == OBSTACLE,
{
    if full_distances(g, sx, sy, cur) {
        law_obstacles_kept(g, sx, sy, cur, x, y);
    } else {
        let (rx, ry) = choose|rx: int, ry: int| stopped_at_target(g, sx, sy, cur, rx, ry);
        let l = choose|l: nat| found_target(g, sx, sy, cur, rx, ry, l);
        assert(settled_upto_at(g, sx, sy, cur, l, x, y));
        if reached(g, sx, sy, x, y, l + 1) {
            lemma_reached_cell(g, sx, sy, x, y, l + 1);
        }
        if reached(g, sx, sy, x, y, l) {
            lemma_reached_cell(g, sx, sy, x, y, l);
        }
    }
}

spec fn settled_upto_at(g: Seq<Seq<i32>>, sx: int, sy: int, cur: Seq<Seq<i32>>, l: nat, x: int, y: int) -> bool {
    &&& reached(g, sx, sy, x, y, l) ==> 0 <= cur[y][x] <= l
    &&& !reached(g, sx, sy, x, y, l) ==> cur[y][x] == g[y][x] || (cur[y][x] == l + 1
        && at_distance(g, sx, sy, x, y, l + 1))
}

proof fn lemma_walk_cells(state: GameState, sx: int, sy: int, x: int, y: int)
    ensures
        is_open(start_grid(state, sx, sy, true), x, y) == (is_open(walk_map(state), x, y) && !(x
            == sx && y == sy)),
        is_target(start_grid(state, sx, sy, true), x, y) == open_challenge(state, sx, sy, x, y),
{
}

proof fn lemma_walk_touches(state: GameState, sx: int, sy: int, x: int, y: int, n: nat)
    ensures
        touches(start_grid(state, sx, sy, true), sx, sy, x, y, n) == touches(
            walk_map(state),
            sx,
            sy,
            x,
            y,
            n,
        ),
{
    let g = start_grid(state, sx, sy, true);
    let f = walk_map(state);
    assert forall|cx: int, cy: int| #[trigger] is_open(g, cx, cy) == (is_open(f, cx, cy) && !(cx
        == sx && cy == sy)) by {
        lemma_walk_cells(state, sx, sy, cx, cy);
    }
    lemma_reach_but_start(g, f, sx, sy, x, y - 1, n);
    lemma_reach_but_start(g, f, sx, sy, x, y + 1, n);
    lemma_reach_but_start(g, f, sx, sy, x - 1, y, n);
    lemma_reach_but_start(g, f, sx, sy, x + 1, y, n);
}

/// The search that stops at challenges stops at a challenge nearest on foot:
/// one the agent can step onto (no other agent on it), reached round
/// obstacles, other agents and other challenges, with no such challenge closer.
pub proof fn law_search_stops_at_nearest_challenge(
    state: GameState,
    sx: int,
    sy: int,
    cur: Seq<Seq<i32>>,
    rx: int,
    ry: int,
)
    requires
        stopped_at_target(start_grid(state, sx, sy, true), sx, sy, cur, rx, ry),
    ensures
        nearest_by_walking(state, sx, sy, rx, ry),
{
    let g = start_grid(state, sx, sy, true);
    let l = choose|l: nat| found_target(g, sx, sy, cur, rx, ry, l);
    lemma_walk_cells(state, sx, sy, rx, ry);
    lemma_walk_touches(state, sx, sy, rx, ry, l);
    assert forall|x: int, y: int, m: nat|
        m < l && open_challenge(state, sx, sy, x, y) implies !#[trigger] touches(
        walk_map(state),
        sx,
        sy,
        x,
        y,
        m,
    ) by {
        lemma_walk_cells(state, sx, sy, x, y);
        lemma_walk_touches(state, sx, sy, x, y, m);
        if touches(g, sx, sy, x, y, m) {
            lemma_touches_mono(g, sx, sy, x, y, m, (l - 1) as nat);
            assert(is_target(g, x, y));
        }
    }
    assert(no_challenge_closer(state, sx, sy, l));
}

} // verus!
