//! The model of the search grid: cells, free cells, challenge markers, the
//! cells reached within `n` steps, distances, and the facts the search relies on.

use vstd::prelude::*;

verus! {

/// Marker of a cell that is never crossed.
pub const OBSTACLE: i32 = -1;

/// Marker of a cell that has not been reached (yet).
pub const INFINITY: i32 = 2147483647;

/// Marker of a cell that holds a mining challenge.
pub const RESSOURCE: i32 = 2147483646;

/// The rows of a distance grid as sequences.
pub open spec fn grid_view(grid: Seq<Vec<i32>>) -> Seq<Seq<i32>> {
    Seq::new(grid.len(), |y: int| grid[y]@)
}

/// `(x, y)` lies inside the grid `g` (indexed `g[y][x]`).
pub open spec fn in_grid(g: Seq<Seq<i32>>, x: int, y: int) -> bool {
    0 <= y < g.len() && 0 <= x < g[y].len()
}

/// A free cell: inside the grid and not yet reached.
pub open spec fn is_open(g: Seq<Seq<i32>>, x: int, y: int) -> bool {
    in_grid(g, x, y) && g[y][x] == INFINITY
}

/// A cell that holds a challenge marker.
pub open spec fn is_target(g: Seq<Seq<i32>>, x: int, y: int) -> bool {
    in_grid(g, x, y) && g[y][x] == RESSOURCE
}

/// The four neighbours, in the order up, down, left, right.
pub open spec fn neighbor(x: int, y: int, k: int) -> (int, int) {
    if k == 0 {
        (x, y - 1)
    } else if k == 1 {
        (x, y + 1)
    } else if k == 2 {
        (x - 1, y)
    } else {
        (x + 1, y)
    }
}

/// The direction that leads back from neighbour `k`.
pub open spec fn opposite(k: int) -> int {
    if k == 0 {
        1
    } else if k == 1 {
        0
    } else if k == 2 {
        3
    } else {
        2
    }
}

/// `(x, y)` can be reached from `(sx, sy)` in at most `n` steps of the four
/// directions, every step landing on a free cell of `g`.
pub open spec fn reached(g: Seq<Seq<i32>>, sx: int, sy: int, x: int, y: int, n: nat) -> bool
    decreases n,
{
    if n == 0 {
        x == sx && y == sy
    } else {
        let m = (n - 1) as nat;
        reached(g, sx, sy, x, y, m) || (is_open(g, x, y) && (reached(g, sx, sy, x, y - 1, m)
            || reached(g, sx, sy, x, y + 1, m) || reached(g, sx, sy, x - 1, y, m) || reached(
            g,
            sx,
            sy,
            x + 1,
            y,
            m,
        )))
    }
}

/// Some neighbour of `(x, y)` is reached within `n` steps.
pub open spec fn touches(g: Seq<Seq<i32>>, sx: int, sy: int, x: int, y: int, n: nat) -> bool {
    reached(g, sx, sy, x, y - 1, n) || reached(g, sx, sy, x, y + 1, n) || reached(
        g,
        sx,
        sy,
        x - 1,
        y,
        n,
    ) || reached(g, sx, sy, x + 1, y, n)
}

/// The shortest way from `(sx, sy)` to `(x, y)` takes exactly `n` steps.
pub open spec fn at_distance(g: Seq<Seq<i32>>, sx: int, sy: int, x: int, y: int, n: nat) -> bool {
    reached(g, sx, sy, x, y, n) && (n == 0 || !reached(g, sx, sy, x, y, (n - 1) as nat))
}

/// `(x, y)` can be reached at all.
pub open spec fn reachable(g: Seq<Seq<i32>>, sx: int, sy: int, x: int, y: int) -> bool {
    exists|n: nat| reached(g, sx, sy, x, y, n)
}

pub proof fn lemma_reached_step(g: Seq<Seq<i32>>, sx: int, sy: int, x: int, y: int, n: nat)
    ensures
        reached(g, sx, sy, x, y, n + 1) == (reached(g, sx, sy, x, y, n) || (is_open(g, x, y)
            && touches(g, sx, sy, x, y, n))),
{
    assert(((n + 1) - 1) as nat == n);
}

pub proof fn lemma_touches_neighbor(g: Seq<Seq<i32>>, sx: int, sy: int, x: int, y: int, n: nat)
    ensures
        touches(g, sx, sy, x, y, n) == exists|k: int|
            0 <= k < 4 && #[trigger] reached(
                g,
                sx,
                sy,
                neighbor(x, y, k).0,
                neighbor(x, y, k).1,
                n,
            ),
{
    if touches(g, sx, sy, x, y, n) {
        if reached(g, sx, sy, x, y - 1, n) {
            assert(neighbor(x, y, 0) == (x, y - 1));
            assert(reached(g, sx, sy, neighbor(x, y, 0).0, neighbor(x, y, 0).1, n));
        } else if reached(g, sx, sy, x, y + 1, n) {
            assert(neighbor(x, y, 1) == (x, y + 1));
            assert(reached(g, sx, sy, neighbor(x, y, 1).0, neighbor(x, y, 1).1, n));
        } else if reached(g, sx, sy, x - 1, y, n) {
            assert(neighbor(x, y, 2) == (x - 1, y));
            assert(reached(g, sx, sy, neighbor(x, y, 2).0, neighbor(x, y, 2).1, n));
        } else {
            assert(neighbor(x, y, 3) == (x + 1, y));
            assert(reached(g, sx, sy, neighbor(x, y, 3).0, neighbor(x, y, 3).1, n));
        }
    } else {
        assert forall|k: int| 0 <= k < 4 implies !#[trigger] reached(
            g,
            sx,
            sy,
            neighbor(x, y, k).0,
            neighbor(x, y, k).1,
            n,
        ) by {
            if k == 0 {
            } else if k == 1 {
            } else if k == 2 {
            } else {
            }
        }
    }
}

pub proof fn lemma_neighbor_back(x: int, y: int, k: int)
    requires
        0 <= k < 4,
    ensures
        0 <= opposite(k) < 4,
        neighbor(neighbor(x, y, k).0, neighbor(x, y, k).1, opposite(k)) == (x, y),
{
}

pub proof fn lemma_reached_mono(g: Seq<Seq<i32>>, sx: int, sy: int, x: int, y: int, n: nat, m: nat)
    requires
        n <= m,
        reached(g, sx, sy, x, y, n),
    ensures
        reached(g, sx, sy, x, y, m),
    decreases m - n,
{
    if n < m {
        lemma_reached_step(g, sx, sy, x, y, n);
        lemma_reached_mono(g, sx, sy, x, y, n + 1, m);
    }
}

pub proof fn lemma_distance_unique(g: Seq<Seq<i32>>, sx: int, sy: int, x: int, y: int, n: nat, m: nat)
    requires
        at_distance(g, sx, sy, x, y, n),
        at_distance(g, sx, sy, x, y, m),
    ensures
        n == m,
{
    if n < m {
        lemma_reached_mono(g, sx, sy, x, y, n, (m - 1) as nat);
    } else if m < n {
        lemma_reached_mono(g, sx, sy, x, y, m, (n - 1) as nat);
    }
}

/// A reached cell is the start or a free cell.
pub proof fn lemma_reached_cell(g: Seq<Seq<i32>>, sx: int, sy: int, x: int, y: int, n: nat)
    requires
        reached(g, sx, sy, x, y, n),
    ensures
        (x == sx && y == sy) || is_open(g, x, y),
    decreases n,
{
    if n > 0 {
        lemma_reached_step(g, sx, sy, x, y, (n - 1) as nat);
        if reached(g, sx, sy, x, y, (n - 1) as nat) {
            lemma_reached_cell(g, sx, sy, x, y, (n - 1) as nat);
        }
    }
}

/// Once a layer is empty, nothing new is ever reached.
pub proof fn lemma_saturated(g: Seq<Seq<i32>>, sx: int, sy: int, l: nat, m: nat)
    requires
        l <= m,
        forall|x: int, y: int| #[trigger] reached(g, sx, sy, x, y, l + 1) ==> reached(g, sx, sy, x, y, l),
    ensures
        forall|x: int, y: int| #[trigger] reached(g, sx, sy, x, y, m) ==> reached(g, sx, sy, x, y, l),
    decreases m - l,
{
    if l < m {
        lemma_saturated(g, sx, sy, l, (m - 1) as nat);
        assert forall|x: int, y: int| #[trigger] reached(g, sx, sy, x, y, m) implies reached(
            g,
            sx,
            sy,
            x,
            y,
            l,
        ) by {
            let p = (m - 1) as nat;
            lemma_reached_step(g, sx, sy, x, y, p);
            if !reached(g, sx, sy, x, y, p) {
                // a neighbour is reached within p, hence within l
                assert(touches(g, sx, sy, x, y, l));
                lemma_reached_step(g, sx, sy, x, y, l);
            }
        }
    }
}

/// What is reached in `g2` within `n` steps is reached in `g1` within `n`
/// steps, when every free cell of `g2` is free in `g1`.
pub proof fn lemma_reached_fewer_open(
    g1: Seq<Seq<i32>>,
    g2: Seq<Seq<i32>>,
    sx: int,
    sy: int,
    x: int,
    y: int,
    n: nat,
)
    requires
        forall|cx: int, cy: int| #[trigger] is_open(g2, cx, cy) ==> is_open(g1, cx, cy),
        reached(g2, sx, sy, x, y, n),
    ensures
        reached(g1, sx, sy, x, y, n),
    decreases n,
{
    if n > 0 {
        let m = (n - 1) as nat;
        lemma_reached_step(g2, sx, sy, x, y, m);
        lemma_reached_step(g1, sx, sy, x, y, m);
        if reached(g2, sx, sy, x, y, m) {
            lemma_reached_fewer_open(g1, g2, sx, sy, x, y, m);
        } else {
            assert(is_open(g2, x, y));
            if reached(g2, sx, sy, x, y - 1, m) {
                lemma_reached_fewer_open(g1, g2, sx, sy, x, y - 1, m);
            } else if reached(g2, sx, sy, x, y + 1, m) {
                lemma_reached_fewer_open(g1, g2, sx, sy, x, y + 1, m);
            } else if reached(g2, sx, sy, x - 1, y, m) {
                lemma_reached_fewer_open(g1, g2, sx, sy, x - 1, y, m);
            } else {
                lemma_reached_fewer_open(g1, g2, sx, sy, x + 1, y, m);
            }
        }
    }
}

/// A way from the free neighbour `k` of `(sx, sy)` to `(x, y)` in `n` steps
/// gives a way from `(sx, sy)` in `n + 1` steps.
pub proof fn lemma_reached_prepend(g: Seq<Seq<i32>>, sx: int, sy: int, k: int, x: int, y: int, n: nat)
    requires
        0 <= k < 4,
        is_open(g, neighbor(sx, sy, k).0, neighbor(sx, sy, k).1),
        reached(g, neighbor(sx, sy, k).0, neighbor(sx, sy, k).1, x, y, n),
    ensures
        reached(g, sx, sy, x, y, n + 1),
    decreases n,
{
    let (tx, ty) = neighbor(sx, sy, k);
    lemma_reached_step(g, sx, sy, x, y, n);
    if n == 0 {
        lemma_neighbor_back(sx, sy, k);
        lemma_touches_neighbor(g, sx, sy, x, y, 0);
        assert(reached(g, sx, sy, neighbor(tx, ty, opposite(k)).0, neighbor(tx, ty, opposite(k)).1, 0));
    } else {
        let m = (n - 1) as nat;
        lemma_reached_step(g, tx, ty, x, y, m);
        if reached(g, tx, ty, x, y, m) {
            lemma_reached_prepend(g, sx, sy, k, x, y, m);
        } else {
            lemma_touches_neighbor(g, tx, ty, x, y, m);
            let j = choose|j: int|
                0 <= j < 4 && #[trigger] reached(g, tx, ty, neighbor(x, y, j).0, neighbor(x, y, j).1, m);
            let (cx, cy) = neighbor(x, y, j);
            lemma_reached_prepend(g, sx, sy, k, cx, cy, m);
            lemma_touches_neighbor(g, sx, sy, x, y, n);
            assert(reached(g, sx, sy, neighbor(x, y, j).0, neighbor(x, y, j).1, n));
        }
    }
}

/// Ways can be walked back: from a free cell `a`, what reaches `b` within `n`
/// steps gives a way from `b` back to `a` within `n` steps.
pub proof fn lemma_reached_symmetric(g: Seq<Seq<i32>>, ax: int, ay: int, bx: int, by: int, n: nat)
    requires
        is_open(g, ax, ay),
        reached(g, ax, ay, bx, by, n),
    ensures
        reached(g, bx, by, ax, ay, n),
    decreases n,
{
    if n > 0 {
        let m = (n - 1) as nat;
        lemma_reached_step(g, ax, ay, bx, by, m);
        if reached(g, ax, ay, bx, by, m) {
            lemma_reached_symmetric(g, ax, ay, bx, by, m);
            lemma_reached_mono(g, bx, by, ax, ay, m, n);
        } else {
            lemma_touches_neighbor(g, ax, ay, bx, by, m);
            let k = choose|k: int|
                0 <= k < 4 && #[trigger] reached(g, ax, ay, neighbor(bx, by, k).0, neighbor(bx, by, k).1, m);
            let (cx, cy) = neighbor(bx, by, k);
            lemma_reached_symmetric(g, ax, ay, cx, cy, m);
            lemma_reached_cell(g, ax, ay, cx, cy, m);
            lemma_reached_prepend(g, bx, by, k, ax, ay, m);
        }
    }
}

/// Two grids whose free cells agree except at the start `(sx, sy)`, which only
/// `f` may count as free, reach the same cells from the start.
pub proof fn lemma_reach_but_start(
    g: Seq<Seq<i32>>,
    f: Seq<Seq<i32>>,
    sx: int,
    sy: int,
    x: int,
    y: int,
    n: nat,
)
    requires
        forall|cx: int, cy: int|
            #[trigger] is_open(g, cx, cy) == (is_open(f, cx, cy) && !(cx == sx && cy == sy)),
    ensures
        reached(g, sx, sy, x, y, n) == reached(f, sx, sy, x, y, n),
    decreases n,
{
    if n > 0 {
        let m = (n - 1) as nat;
        lemma_reached_step(f, sx, sy, x, y, m);
        lemma_reached_step(g, sx, sy, x, y, m);
        lemma_reach_but_start(g, f, sx, sy, x, y, m);
        lemma_reach_but_start(g, f, sx, sy, x, y - 1, m);
        lemma_reach_but_start(g, f, sx, sy, x, y + 1, m);
        lemma_reach_but_start(g, f, sx, sy, x - 1, y, m);
        lemma_reach_but_start(g, f, sx, sy, x + 1, y, m);
        if x == sx && y == sy {
            assert(reached(g, sx, sy, x, y, 0));
            assert(reached(f, sx, sy, x, y, 0));
            lemma_reached_mono(g, sx, sy, x, y, 0, n);
            lemma_reached_mono(f, sx, sy, x, y, 0, n);
        }
    }
}

/// A cell next to a cell reached within `m` steps is next to one reached
/// within any larger number of steps.
pub proof fn lemma_touches_mono(g: Seq<Seq<i32>>, sx: int, sy: int, x: int, y: int, m: nat, n: nat)
    requires
        m <= n,
        touches(g, sx, sy, x, y, m),
    ensures
        touches(g, sx, sy, x, y, n),
{
    if reached(g, sx, sy, x, y - 1, m) {
        lemma_reached_mono(g, sx, sy, x, y - 1, m, n);
    } else if reached(g, sx, sy, x, y + 1, m) {
        lemma_reached_mono(g, sx, sy, x, y + 1, m, n);
    } else if reached(g, sx, sy, x - 1, y, m) {
        lemma_reached_mono(g, sx, sy, x - 1, y, m, n);
    } else {
        lemma_reached_mono(g, sx, sy, x + 1, y, m, n);
    }
}

/// Number of unreached free cells (value `INFINITY`) in a row.
pub open spec fn row_free_count(row: Seq<i32>) -> nat
    decreases row.len(),
{
    if row.len() == 0 {
        0
    } else {
        row_free_count(row.drop_last()) + (if row.last() == INFINITY {
            1nat
        } else {
            0nat
        })
    }
}

/// Number of unreached free cells (value `INFINITY`) in a grid.
pub open spec fn grid_free_count(rows: Seq<Seq<i32>>) -> nat
    decreases rows.len(),
{
    if rows.len() == 0 {
        0
    } else {
        grid_free_count(rows.drop_last()) + row_free_count(rows.last())
    }
}

pub proof fn lemma_row_free_update(row: Seq<i32>, i: int, v: i32)
    requires
        0 <= i < row.len(),
    ensures
        row_free_count(row.update(i, v)) + (if row[i] == INFINITY {
            1int
        } else {
            0int
        }) == row_free_count(row) + (if v == INFINITY {
            1int
        } else {
            0int
        }),
    decreases row.len(),
{
    let u = row.update(i, v);
    if i == row.len() - 1 {
        assert(u.drop_last() =~= row.drop_last());
    } else {
        assert(u.drop_last() =~= row.drop_last().update(i, v));
        lemma_row_free_update(row.drop_last(), i, v);
    }
}

pub proof fn lemma_grid_free_update(rows: Seq<Seq<i32>>, y: int, r: Seq<i32>)
    requires
        0 <= y < rows.len(),
    ensures
        grid_free_count(rows.update(y, r)) + row_free_count(rows[y]) == grid_free_count(rows)
            + row_free_count(r),
    decreases rows.len(),
{
    let u = rows.update(y, r);
    if y == rows.len() - 1 {
        assert(u.drop_last() =~= rows.drop_last());
    } else {
        assert(u.drop_last() =~= rows.drop_last().update(y, r));
        lemma_grid_free_update(rows.drop_last(), y, r);
    }
}

pub proof fn lemma_row_free_bound(row: Seq<i32>)
    ensures
        row_free_count(row) <= row.len(),
        (exists|i: int| 0 <= i < row.len() && row[i] != INFINITY) ==> row_free_count(row)
            < row.len(),
    decreases row.len(),
{
    if row.len() > 0 {
        lemma_row_free_bound(row.drop_last());
        if exists|i: int| 0 <= i < row.len() && row[i] != INFINITY {
            let i = choose|i: int| 0 <= i < row.len() && row[i] != INFINITY;
            if i < row.len() - 1 {
                assert(row.drop_last()[i] == row[i]);
            }
        }
    }
}

pub proof fn lemma_grid_free_bound(rows: Seq<Seq<i32>>, w: int)
    requires
        forall|y: int| 0 <= y < rows.len() ==> #[trigger] rows[y].len() == w,
    ensures
        grid_free_count(rows) <= rows.len() * w,
        (exists|x: int, y: int| 0 <= y < rows.len() && 0 <= x < w && rows[y][x] != INFINITY)
            ==> grid_free_count(rows) < rows.len() * w,
    decreases rows.len(),
{
    if rows.len() > 0 {
        let n = rows.len() - 1;
        assert(rows.drop_last().len() == n);
        assert forall|y: int| 0 <= y < rows.drop_last().len() implies #[trigger] rows.drop_last()[y].len() == w by {
            assert(rows.drop_last()[y] == rows[y]);
        }
        lemma_grid_free_bound(rows.drop_last(), w);
        lemma_row_free_bound(rows.last());
        assert(rows.len() * w == n * w + w) by (nonlinear_arith)
            requires
                rows.len() == n + 1,
        ;
        if exists|x: int, y: int| 0 <= y < rows.len() && 0 <= x < w && rows[y][x] != INFINITY {
            let (x, y) = choose|x: int, y: int|
                0 <= y < rows.len() && 0 <= x < w && rows[y][x] != INFINITY;
            if y < n {
                assert(rows.drop_last()[y][x] == rows[y][x]);
            } else {
                assert(rows.last()[x] != INFINITY);
            }
        }
    }
}

/// `g` is a `width` × `height` search grid whose start cell holds 0 and whose
/// other cells are obstacles, free cells or challenge markers.
pub open spec fn search_grid(g: Seq<Seq<i32>>, width: int, height: int, sx: int, sy: int) -> bool {
    &&& g.len() == height
    &&& forall|y: int| 0 <= y < height ==> #[trigger] g[y].len() == width
    &&& in_grid(g, sx, sy)
    &&& g[sy][sx] == 0
    &&& forall|x: int, y: int|
        #![trigger g[y][x]]
        in_grid(g, x, y) && !(x == sx && y == sy) ==> g[y][x] == OBSTACLE || g[y][x] == INFINITY
            || g[y][x] == RESSOURCE
}

/// `cur` has the shape of `g`.
pub open spec fn same_shape(g: Seq<Seq<i32>>, cur: Seq<Seq<i32>>) -> bool {
    &&& cur.len() == g.len()
    &&& forall|y: int| 0 <= y < g.len() ==> #[trigger] cur[y].len() == g[y].len()
}

/// Every cell within `l` steps holds its distance; every other cell holds its
/// initial value, or `l + 1` if its distance is `l + 1`.
pub open spec fn settled_upto(g: Seq<Seq<i32>>, sx: int, sy: int, cur: Seq<Seq<i32>>, l: nat) -> bool {
    forall|x: int, y: int|
        #![trigger cur[y][x]]
        in_grid(g, x, y) ==> {
            &&& reached(g, sx, sy, x, y, l) ==> 0 <= cur[y][x] <= l && at_distance(
                g,
                sx,
                sy,
                x,
                y,
                cur[y][x] as nat,
            )
            &&& !reached(g, sx, sy, x, y, l) ==> cur[y][x] == g[y][x] || (cur[y][x] == l + 1
                && at_distance(g, sx, sy, x, y, l + 1))
        }
}

/// No challenge cell lies next to a cell reached within `n` steps.
pub open spec fn no_target_touched(g: Seq<Seq<i32>>, sx: int, sy: int, n: nat) -> bool {
    forall|x: int, y: int| #[trigger] is_target(g, x, y) ==> !touches(g, sx, sy, x, y, n)
}

/// `cur` is the finished distance grid: reachable cells hold their distance,
/// the other cells their initial value.
pub open spec fn full_distances(g: Seq<Seq<i32>>, sx: int, sy: int, cur: Seq<Seq<i32>>) -> bool {
    forall|x: int, y: int|
        #![trigger cur[y][x]]
        in_grid(g, x, y) ==> {
            &&& forall|n: nat| #[trigger] at_distance(g, sx, sy, x, y, n) ==> cur[y][x] == n
            &&& !reachable(g, sx, sy, x, y) ==> cur[y][x] == g[y][x]
        }
}

/// The search stopped at the challenge cell `(x, y)`: it lies next to a cell
/// at distance `l`, no challenge lies next to a cell closer than that, and the
/// grid is settled up to distance `l`.
pub open spec fn found_target(
    g: Seq<Seq<i32>>,
    sx: int,
    sy: int,
    cur: Seq<Seq<i32>>,
    x: int,
    y: int,
    l: nat,
) -> bool {
    &&& is_target(g, x, y)
    &&& touches(g, sx, sy, x, y, l)
    &&& l == 0 || no_target_touched(g, sx, sy, (l - 1) as nat)
    &&& settled_upto(g, sx, sy, cur, l)
}

/// The search stopped at the challenge cell `(x, y)`, reached at some distance.
pub open spec fn stopped_at_target(
    g: Seq<Seq<i32>>,
    sx: int,
    sy: int,
    cur: Seq<Seq<i32>>,
    x: int,
    y: int,
) -> bool {
    exists|l: nat| found_target(g, sx, sy, cur, x, y, l)
}

/// The challenge cell `(x, y)` lies next to a cell at distance `l`, and no
/// challenge lies next to a closer cell: it is a nearest challenge.
pub open spec fn nearest_target(g: Seq<Seq<i32>>, sx: int, sy: int, x: int, y: int) -> bool {
    exists|l: nat|
        is_target(g, x, y) && #[trigger] touches(g, sx, sy, x, y, l) && (l == 0
            || no_target_touched(g, sx, sy, (l - 1) as nat))
}

/// The finished distance value of a cell: its distance when it can be
/// reached, its initial value otherwise.
pub open spec fn distance_value(g: Seq<Seq<i32>>, sx: int, sy: int, x: int, y: int) -> i32 {
    if reachable(g, sx, sy, x, y) {
        (choose|n: nat| at_distance(g, sx, sy, x, y, n)) as i32
    } else {
        g[y][x]
    }
}

/// The finished distance grid of a search from `(sx, sy)`.
pub open spec fn distance_grid(g: Seq<Seq<i32>>, sx: int, sy: int) -> Seq<Seq<i32>> {
    Seq::new(g.len(), |y: int| Seq::new(g[y].len(), |x: int| distance_value(g, sx, sy, x, y)))
}

pub proof fn lemma_first_distance(g: Seq<Seq<i32>>, sx: int, sy: int, x: int, y: int, n: nat)
    requires
        reached(g, sx, sy, x, y, n),
    ensures
        exists|m: nat| m <= n && #[trigger] at_distance(g, sx, sy, x, y, m),
    decreases n,
{
    if n > 0 && reached(g, sx, sy, x, y, (n - 1) as nat) {
        lemma_first_distance(g, sx, sy, x, y, (n - 1) as nat);
    } else {
        assert(at_distance(g, sx, sy, x, y, n));
    }
}

/// A finished distance grid is the distance grid.
pub proof fn lemma_full_is_distance_grid(g: Seq<Seq<i32>>, sx: int, sy: int, cur: Seq<Seq<i32>>)
    requires
        same_shape(g, cur),
        full_distances(g, sx, sy, cur),
    ensures
        cur == distance_grid(g, sx, sy),
{
    let d = distance_grid(g, sx, sy);
    assert forall|y: int| 0 <= y < g.len() implies #[trigger] cur[y] =~= d[y] by {
        assert forall|x: int| 0 <= x < g[y].len() implies cur[y][x] == d[y][x] by {
            assert(in_grid(g, x, y));
            if reachable(g, sx, sy, x, y) {
                let n0 = choose|n: nat| reached(g, sx, sy, x, y, n);
                lemma_first_distance(g, sx, sy, x, y, n0);
                let n = choose|n: nat| at_distance(g, sx, sy, x, y, n);
                assert(cur[y][x] == n);
            }
        }
    }
    assert(cur =~= d);
}

} // verus!
