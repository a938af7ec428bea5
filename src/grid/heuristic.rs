//! The heuristics: per-tile distances to the goal cell, the board's total
//! estimate, and its update after one move.

use crate::complex::Complex;
use crate::grid::{
    lemma_cell_in_range, lemma_index_coords, lemma_solved_is_permutation, lemma_step_wf,
    solved_board, Board, Grid, MAX_SIDE,
};
use vstd::prelude::*;

verus! {

/// Distance between a tile's cell and its goal cell.
#[derive(Clone, Copy, Debug, PartialEq, Eq, Structural)]
pub enum Heuristic {
    Manhattan,
    Euclidian,
    Misplaced,
    Zero,
}

pub open spec fn abs_int(a: int) -> int {
    if a < 0 {
        -a
    } else {
        a
    }
}

pub open spec fn is_floor_sqrt(n: int, r: int) -> bool {
    0 <= r && r * r <= n && n < (r + 1) * (r + 1)
}

/// `⌊√n⌋` for `n ≥ 0`.
pub open spec fn floor_sqrt(n: int) -> int {
    choose|r: int| is_floor_sqrt(n, r)
}

/// The distance of heuristic `h` between `(ax, ay)` and `(bx, by)`.
pub open spec fn dist_spec(h: Heuristic, ax: int, ay: int, bx: int, by: int) -> int {
    match h {
        Heuristic::Manhattan => abs_int(ax - bx) + abs_int(ay - by),
        Heuristic::Euclidian => floor_sqrt((ax - bx) * (ax - bx) + (ay - by) * (ay - by)),
        Heuristic::Misplaced => if ax == bx && ay == by {
            0
        } else {
            1
        },
        Heuristic::Zero => 0,
    }
}

proof fn lemma_floor_sqrt_unique(n: int, r: int)
    requires
        is_floor_sqrt(n, r),
    ensures
        floor_sqrt(n) == r,
{
    let c = floor_sqrt(n);
    assert(is_floor_sqrt(n, c));
    if c < r {
        assert((c + 1) * (c + 1) <= r * r) by (nonlinear_arith)
            requires
                0 <= c < r,
        ;
    } else if r < c {
        assert((r + 1) * (r + 1) <= c * c) by (nonlinear_arith)
            requires
                0 <= r < c,
        ;
    }
}

/// `⌊√n⌋` by bisection.
fn isqrt(n: i64) -> (r: i64)
    requires
        0 <= n < 65536 * 65536,
    ensures
        is_floor_sqrt(n as int, r as int),
{
    let mut lo: i64 = 0;
    let mut hi: i64 = 65536;
    while lo + 1 < hi
        invariant
            0 <= lo < hi <= 65536,
            lo * lo <= n,
            n < hi * hi,
        decreases hi - lo,
    {
        let mid = lo + (hi - lo) / 2;
        assert(mid * mid < 65536 * 65536) by (nonlinear_arith)
            requires
                0 <= mid < 65536,
        ;
        if mid * mid <= n {
            lo = mid;
        } else {
            hi = mid;
        }
    }
    lo
}

impl Heuristic {
    /// The heuristic's distance between two cells of a board.
    pub fn dist(&self, z0: Complex<i32>, z1: Complex<i32>) -> (r: i32)
        requires
            0 <= z0.x < MAX_SIDE,
            0 <= z0.y < MAX_SIDE,
            0 <= z1.x < MAX_SIDE,
            0 <= z1.y < MAX_SIDE,
        ensures
            r == dist_spec(*self, z0.x as int, z0.y as int, z1.x as int, z1.y as int),
            0 <= r <= abs_int(z0.x - z1.x) + abs_int(z0.y - z1.y),
    {
        let dx = z0.x - z1.x;
        let dy = z0.y - z1.y;
        let ax = if dx < 0 {
            -dx
        } else {
            dx
        };
        let ay = if dy < 0 {
            -dy
        } else {
            dy
        };
        match self {
            Heuristic::Manhattan => ax + ay,
            Heuristic::Euclidian => {
                let sx = ax as i64;
                let sy = ay as i64;
                assert(sx * sx + sy * sy < 65536 * 65536) by (nonlinear_arith)
                    requires
                        0 <= sx < MAX_SIDE,
                        0 <= sy < MAX_SIDE,
                ;
                let r = isqrt(sx * sx + sy * sy);
                proof {
                    assert(sx * sx == dx * dx && sy * sy == dy * dy) by (nonlinear_arith)
                        requires
                            sx == ax,
                            sy == ay,
                            ax == dx || ax == -dx,
                            ay == dy || ay == -dy,
                    ;
                    lemma_floor_sqrt_unique(sx * sx + sy * sy, r as int);
                    assert(r <= sx + sy) by (nonlinear_arith)
                        requires
                            0 <= r,
                            0 <= sx,
                            0 <= sy,
                            r * r <= sx * sx + sy * sy,
                    ;
                }
                r as i32
            },
            Heuristic::Misplaced => {
                if z0.x == z1.x && z0.y == z1.y {
                    0
                } else {
                    1
                }
            },
            Heuristic::Zero => 0,
        }
    }
}

/// Cell of the solved board of side `s` that holds tile `t`.
pub open spec fn goal_cell(s: int, t: int) -> int {
    choose|i: int| 0 <= i < s * s && solved_board(s).tiles[i] == t
}

/// Tile `t` of `0..s²` has a goal cell on the board.
pub proof fn lemma_goal_cell_exists(s: int, t: int)
    requires
        1 <= s <= MAX_SIDE,
        0 <= t < s * s,
    ensures
        0 <= goal_cell(s, t) < s * s,
        solved_board(s).tiles[goal_cell(s, t)] == t,
{
    lemma_solved_is_permutation(s);
    assert(s * s <= MAX_SIDE * MAX_SIDE) by (nonlinear_arith)
        requires
            1 <= s <= MAX_SIDE,
    ;
    assert(solved_board(s).tiles.contains(t as i32));
    let i = choose|i: int| 0 <= i < solved_board(s).tiles.len() && solved_board(s).tiles[i] == t as i32;
    assert(0 <= i < s * s && solved_board(s).tiles[i] == t);
}

proof fn lemma_abs_square(a: int)
    ensures
        0 <= abs_int(a),
        abs_int(a) * abs_int(a) == a * a,
{
    if a < 0 {
        assert((-a) * (-a) == a * a) by (nonlinear_arith);
    }
}

/// Contribution of cell `i` to the heuristic cost: the distance from the cell
/// to the goal cell of its tile, nothing for the empty cell.
pub open spec fn cell_cost(h: Heuristic, b: Board, i: int) -> int {
    let t = b.tiles[i] as int;
    let g = goal_cell(b.size, t);
    if t == 0 {
        0
    } else {
        dist_spec(h, i % b.size, i / b.size, g % b.size, g / b.size)
    }
}

/// Cost of the first `k` cells.
pub open spec fn cost_upto(h: Heuristic, b: Board, k: int) -> int
    decreases k,
{
    if k <= 0 {
        0
    } else {
        cost_upto(h, b, k - 1) + cell_cost(h, b, k - 1)
    }
}

/// The heuristic estimate of a board: the sum over its non-empty cells.
pub open spec fn h_total(h: Heuristic, b: Board) -> int {
    cost_upto(h, b, b.n())
}

/// Every heuristic's distance is at most the Manhattan distance.
proof fn lemma_dist_le_manhattan(h: Heuristic, ax: int, ay: int, bx: int, by: int)
    ensures
        0 <= dist_spec(h, ax, ay, bx, by) <= abs_int(ax - bx) + abs_int(ay - by),
{
    if h == Heuristic::Euclidian {
        let dx = ax - bx;
        let dy = ay - by;
        let r = floor_sqrt(dx * dx + dy * dy);
        assert(dx * dx + dy * dy >= 0) by (nonlinear_arith);
        assert(is_floor_sqrt(dx * dx + dy * dy, r)) by {
            lemma_floor_sqrt_exists(dx * dx + dy * dy);
        }
        lemma_abs_square(dx);
        lemma_abs_square(dy);
        assert(r <= abs_int(dx) + abs_int(dy)) by (nonlinear_arith)
            requires
                0 <= r,
                r * r <= dx * dx + dy * dy,
                abs_int(dx) * abs_int(dx) == dx * dx,
                abs_int(dy) * abs_int(dy) == dy * dy,
                0 <= abs_int(dx),
                0 <= abs_int(dy),
        ;
    }
}

proof fn lemma_cell_cost_bound(h: Heuristic, b: Board, i: int)
    requires
        b.wf(),
        0 <= i < b.n(),
    ensures
        0 <= cell_cost(h, b, i) <= 2 * b.size,
        cell_cost(h, b, i) <= cell_cost(Heuristic::Manhattan, b, i),
{
    let t = b.tiles[i] as int;
    if t != 0 {
        lemma_index_coords(b.size, i);
        lemma_goal_cell_exists(b.size, t);
        lemma_index_coords(b.size, goal_cell(b.size, t));
        let g = goal_cell(b.size, t);
        lemma_dist_le_manhattan(h, i % b.size, i / b.size, g % b.size, g / b.size);
    }
}

proof fn lemma_floor_sqrt_exists(n: int)
    requires
        0 <= n,
    ensures
        is_floor_sqrt(n, floor_sqrt(n)),
    decreases n,
{
    if n == 0 {
        assert(is_floor_sqrt(0, 0));
    } else {
        lemma_floor_sqrt_exists(n - 1);
        let r = floor_sqrt(n - 1);
        if (r + 1) * (r + 1) <= n {
            assert(n < (r + 2) * (r + 2)) by (nonlinear_arith)
                requires
                    n - 1 < (r + 1) * (r + 1),
                    0 <= r,
            ;
            assert(is_floor_sqrt(n, r + 1));
        } else {
            assert(is_floor_sqrt(n, r));
        }
    }
}

proof fn lemma_cost_upto_bound(h: Heuristic, b: Board, k: int)
    requires
        b.wf(),
        0 <= k <= b.n(),
    ensures
        0 <= cost_upto(h, b, k) <= k * 2 * b.size,
    decreases k,
{
    if k > 0 {
        lemma_cost_upto_bound(h, b, k - 1);
        lemma_cell_cost_bound(h, b, k - 1);
        assert((k - 1) * 2 * b.size + 2 * b.size == k * 2 * b.size) by (nonlinear_arith);
    }
}

/// The heuristic estimate of a board lies in `0..=2·S³`.
pub proof fn lemma_h_total_bound(h: Heuristic, b: Board)
    requires
        b.wf(),
    ensures
        0 <= h_total(h, b) <= b.n() * 2 * b.size,
        b.n() * 2 * b.size <= MAX_SIDE * MAX_SIDE * 2 * MAX_SIDE,
{
    lemma_cost_upto_bound(h, b, b.n());
    assert(b.n() * 2 * b.size <= MAX_SIDE * MAX_SIDE * 2 * MAX_SIDE) by (nonlinear_arith)
        requires
            1 <= b.size <= MAX_SIDE,
            b.n() == b.size * b.size,
    ;
}

/// Two boards that agree on every cell but `z` and `t` differ in cost by the
/// change at those two cells.
proof fn lemma_cost_two_cells(h: Heuristic, b: Board, c: Board, z: int, t: int, k: int)
    requires
        b.size == c.size,
        b.tiles.len() == c.tiles.len(),
        0 <= k <= b.tiles.len(),
        0 <= z < b.tiles.len(),
        0 <= t < b.tiles.len(),
        z != t,
        forall|i: int| 0 <= i < b.tiles.len() && i != z && i != t ==> b.tiles[i] == c.tiles[i],
    ensures
        cost_upto(h, c, k) == cost_upto(h, b, k) + (if z < k {
            cell_cost(h, c, z) - cell_cost(h, b, z)
        } else {
            0
        }) + (if t < k {
            cell_cost(h, c, t) - cell_cost(h, b, t)
        } else {
            0
        }),
    decreases k,
{
    if k > 0 {
        lemma_cost_two_cells(h, b, c, z, t, k - 1);
        assert(cost_upto(h, c, k) == cost_upto(h, c, k - 1) + cell_cost(h, c, k - 1));
        assert(cost_upto(h, b, k) == cost_upto(h, b, k - 1) + cell_cost(h, b, k - 1));
        if k - 1 != z && k - 1 != t {
            assert(c.tiles[k - 1] == b.tiles[k - 1]);
            assert(cell_cost(h, c, k - 1) == cell_cost(h, b, k - 1));
        }
    }
}

/// The heuristic cost after a unit move, from the cost before it: only the
/// tile that slides changes its contribution.
pub proof fn lemma_incremental_cost(h: Heuristic, b: Board, dx: int, dy: int)
    requires
        b.wf(),
        b.distinct(),
        b.legal(dx, dy),
        abs_int(dx) + abs_int(dy) == 1,
    ensures
        ({
            let z = b.cell(b.zx, b.zy);
            let t = b.cell(b.zx + dx, b.zy + dy);
            let g = goal_cell(b.size, b.tiles[t] as int);
            h_total(h, b.step(dx, dy)) == h_total(h, b) - dist_spec(
                h,
                b.zx + dx,
                b.zy + dy,
                g % b.size,
                g / b.size,
            ) + dist_spec(h, b.zx, b.zy, g % b.size, g / b.size)
        }),
{
    let z = b.cell(b.zx, b.zy);
    let t = b.cell(b.zx + dx, b.zy + dy);
    let c = b.step(dx, dy);
    lemma_cell_in_range(b.size, b.zx, b.zy);
    lemma_cell_in_range(b.size, b.zx + dx, b.zy + dy);
    assert(z != t);
    assert(b.tiles[t] != 0);
    lemma_cost_two_cells(h, b, c, z, t, b.n());
}

proof fn lemma_cost_le_manhattan(h: Heuristic, b: Board, k: int)
    requires
        b.wf(),
        0 <= k <= b.n(),
    ensures
        cost_upto(h, b, k) <= cost_upto(Heuristic::Manhattan, b, k),
    decreases k,
{
    if k > 0 {
        lemma_cost_le_manhattan(h, b, k - 1);
        lemma_cell_cost_bound(h, b, k - 1);
    }
}

/// No heuristic estimates more than the Manhattan one.
pub proof fn lemma_h_le_manhattan(h: Heuristic, b: Board)
    requires
        b.wf(),
    ensures
        h_total(h, b) <= h_total(Heuristic::Manhattan, b),
{
    lemma_cost_le_manhattan(h, b, b.n());
}

/// One unit move changes the Manhattan estimate by at most one.
pub proof fn lemma_manhattan_step(b: Board, dx: int, dy: int)
    requires
        b.wf(),
        b.distinct(),
        b.legal(dx, dy),
        abs_int(dx) + abs_int(dy) == 1,
    ensures
        h_total(Heuristic::Manhattan, b.step(dx, dy)) <= h_total(Heuristic::Manhattan, b) + 1,
        h_total(Heuristic::Manhattan, b) <= h_total(Heuristic::Manhattan, b.step(dx, dy)) + 1,
{
    lemma_incremental_cost(Heuristic::Manhattan, b, dx, dy);
}

proof fn lemma_solved_cost_zero(s: int, k: int)
    requires
        1 <= s <= MAX_SIDE,
        0 <= k <= s * s,
    ensures
        cost_upto(Heuristic::Manhattan, solved_board(s), k) == 0,
    decreases k,
{
    if k > 0 {
        lemma_solved_cost_zero(s, k - 1);
        let b = solved_board(s);
        let i = k - 1;
        lemma_solved_is_permutation(s);
        let t = b.tiles[i] as int;
        if t != 0 {
            lemma_goal_cell_exists(s, t);
            assert(goal_cell(s, t) == i);
        }
    }
}

/// The solved board has a Manhattan estimate of zero.
pub proof fn lemma_solved_manhattan_zero(s: int)
    requires
        1 <= s <= MAX_SIDE,
    ensures
        h_total(Heuristic::Manhattan, solved_board(s)) == 0,
{
    lemma_solved_cost_zero(s, s * s);
}

/// Moving one coordinate by one changes `⌊√(a² + c²)⌋` by at most one.
proof fn lemma_floor_sqrt_step(a: int, a2: int, c: int)
    requires
        -1 <= a2 - a <= 1,
    ensures
        floor_sqrt(a2 * a2 + c * c) <= floor_sqrt(a * a + c * c) + 1,
{
    let n = a * a + c * c;
    let n2 = a2 * a2 + c * c;
    assert(a * a >= 0 && a2 * a2 >= 0 && c * c >= 0) by (nonlinear_arith);
    lemma_floor_sqrt_exists(n);
    lemma_floor_sqrt_exists(n2);
    let r = floor_sqrt(n);
    let r2 = floor_sqrt(n2);
    lemma_abs_square(a);
    assert(abs_int(a) <= r) by (nonlinear_arith)
        requires
            abs_int(a) * abs_int(a) == a * a,
            0 <= abs_int(a),
            0 <= r,
            a * a <= a * a + c * c,
            a * a + c * c < (r + 1) * (r + 1),
    ;
    assert(n2 <= n + 2 * abs_int(a) + 1) by (nonlinear_arith)
        requires
            -1 <= a2 - a <= 1,
            abs_int(a) == a || abs_int(a) == -a,
            n == a * a + c * c,
            n2 == a2 * a2 + c * c,
    ;
    assert(n2 < (r + 2) * (r + 2)) by (nonlinear_arith)
        requires
            n2 <= n + 2 * abs_int(a) + 1,
            abs_int(a) <= r,
            n < (r + 1) * (r + 1),
            0 <= r,
    ;
    if r2 > r + 1 {
        assert((r + 2) * (r + 2) <= r2 * r2) by (nonlinear_arith)
            requires
                r + 2 <= r2,
                0 <= r,
        ;
    }
}

/// Moving a point by one cell changes each heuristic's distance from a fixed
/// point by at most one.
proof fn lemma_dist_step(h: Heuristic, ax: int, ay: int, bx: int, by: int, dx: int, dy: int)
    requires
        abs_int(dx) + abs_int(dy) == 1,
    ensures
        dist_spec(h, ax + dx, ay + dy, bx, by) <= dist_spec(h, ax, ay, bx, by) + 1,
{
    if h == Heuristic::Euclidian {
        if dx == 0 {
            lemma_floor_sqrt_step(ay - by, ay + dy - by, ax - bx);
            assert((ax - bx) * (ax - bx) + (ay + dy - by) * (ay + dy - by) == (ay + dy - by) * (ay
                + dy - by) + (ax - bx) * (ax - bx));
            assert((ax - bx) * (ax - bx) + (ay - by) * (ay - by) == (ay - by) * (ay - by) + (ax - bx)
                * (ax - bx));
        } else {
            lemma_floor_sqrt_step(ax - bx, ax + dx - bx, ay - by);
        }
    }
}

/// Each heuristic is consistent: a unit move lowers the estimate by at most
/// one.
pub proof fn lemma_consistent(h: Heuristic, b: Board, dx: int, dy: int)
    requires
        b.wf(),
        b.distinct(),
        b.legal(dx, dy),
        abs_int(dx) + abs_int(dy) == 1,
    ensures
        h_total(h, b) <= h_total(h, b.step(dx, dy)) + 1,
{
    lemma_incremental_cost(h, b, dx, dy);
    let t = b.cell(b.zx + dx, b.zy + dy);
    let g = goal_cell(b.size, b.tiles[t] as int);
    lemma_dist_step(h, b.zx, b.zy, g % b.size, g / b.size, dx, dy);
}

/// The target cell of each tile, with the heuristic that measures distances.
pub(crate) struct Hcost {
    pub(crate) target_m: Vec<Complex<i32>>,
    pub(crate) h: Heuristic,
    pub(crate) size: i32,
}

impl Hcost {
    pub(crate) open spec fn wf(&self) -> bool {
        &&& 1 <= self.size <= MAX_SIDE
        &&& self.target_m.len() == self.size * self.size
        &&& forall|t: int|
            0 <= t < self.target_m.len() ==> {
                let g = goal_cell(self.size as int, t);
                &&& (#[trigger] self.target_m@[t]).x == g % self.size as int
                &&& self.target_m@[t].y == g / self.size as int
            }
    }

    pub(crate) fn new(size: i32, h: Heuristic) -> (r: Self)
        requires
            1 <= size <= MAX_SIDE,
        ensures
            r.wf(),
            r.h == h,
            r.size == size,
    {
        let solved = Grid::create_solved_grid(size);
        proof {
            lemma_solved_is_permutation(size as int);
        }
        let n = solved.v.len();
        assert(n <= MAX_SIDE * MAX_SIDE) by (nonlinear_arith)
            requires
                1 <= size <= MAX_SIDE,
                n == size * size,
        ;
        let mut target_m: Vec<Complex<i32>> = Vec::new();
        let mut i: usize = 0;
        while i < n
            invariant
                i <= n,
                target_m.len() == i,
            decreases n - i,
        {
            target_m.push(Complex::new(0, 0));
            i = i + 1;
        }
        let mut i: usize = 0;
        while i < n
            invariant
                solved@ == solved_board(size as int),
                solved@.wf(),
                solved@.distinct(),
                n == solved.v.len(),
                n <= MAX_SIDE * MAX_SIDE,
                1 <= size <= MAX_SIDE,
                i <= n,
                target_m.len() == n,
                forall|j: int|
                    0 <= j < i ==> {
                        let t = #[trigger] solved.v@[j] as int;
                        &&& target_m@[t].x == j % size as int
                        &&& target_m@[t].y == j / size as int
                    },
            decreases n - i,
        {
            proof {
                lemma_index_coords(size as int, i as int);
            }
            let t = solved.v[i] as usize;
            let p = Complex::new(i as i32 % size, i as i32 / size);
            let ghost prev = target_m@;
            target_m.set(t, p);
            proof {
                assert forall|j: int| 0 <= j < i + 1 implies {
                    let u = #[trigger] solved.v@[j] as int;
                    &&& target_m@[u].x == j % size as int
                    &&& target_m@[u].y == j / size as int
                } by {
                    if j < i {
                        assert(solved.v@[j] != solved.v@[i as int]);
                        assert(target_m@[solved.v@[j] as int] == prev[solved.v@[j] as int]);
                    }
                }
            }
            i = i + 1;
        }
        proof {
            assert forall|t: int| 0 <= t < target_m.len() implies {
                let g = goal_cell(size as int, t);
                &&& (#[trigger] target_m@[t]).x == g % size as int
                &&& target_m@[t].y == g / size as int
            } by {
                lemma_goal_cell_exists(size as int, t);
                let g = goal_cell(size as int, t);
                assert(solved.v@[g] == t);
            }
        }
        Hcost { target_m, h, size }
    }

    /// Heuristic cost of a whole board.
    pub(crate) fn hcost(&self, grid: &Grid) -> (r: i64)
        requires
            self.wf(),
            grid@.wf(),
            grid.size == self.size,
        ensures
            r == h_total(self.h, grid@),
    {
        let n = grid.v.len();
        let s = grid.size;
        proof {
            lemma_h_total_bound(self.h, grid@);
            assert(n <= MAX_SIDE * MAX_SIDE) by (nonlinear_arith)
                requires
                    1 <= s <= MAX_SIDE,
                    n == s * s,
            ;
        }
        let mut c: i64 = 0;
        let mut i: usize = 0;
        while i < n
            invariant
                self.wf(),
                grid@.wf(),
                grid.size == self.size,
                s == grid.size,
                n == grid.v.len(),
                n <= MAX_SIDE * MAX_SIDE,
                i <= n,
                c == cost_upto(self.h, grid@, i as int),
            decreases n - i,
        {
            proof {
                lemma_index_coords(s as int, i as int);
                lemma_cost_upto_bound(self.h, grid@, i as int + 1);
                assert((i as int + 1) * 2 * s <= n * 2 * s) by (nonlinear_arith)
                    requires
                        i < n,
                        0 < s,
                ;
                lemma_h_total_bound(self.h, grid@);
            }
            let t = grid.v[i];
            if t != 0 {
                let p = Complex::new(i as i32 % s, i as i32 / s);
                let q = self.target_m[t as usize];
                proof {
                    lemma_goal_cell_exists(s as int, t as int);
                    lemma_index_coords(s as int, goal_cell(s as int, t as int));
                }
                let d = self.h.dist(p, q);
                c = c + d as i64;
            }
            i = i + 1;
        }
        c
    }

    /// Heuristic cost of the board that a unit move `d` makes from `grid`,
    /// computed from the cost `h_cost` of `grid` itself.
    pub(crate) fn smart_hcost(&self, grid: &Grid, h_cost: i64, d: Complex<i32>) -> (r: i64)
        requires
            self.wf(),
            grid@.wf(),
            grid@.distinct(),
            grid.size == self.size,
            grid@.legal(d.x as int, d.y as int),
            abs_int(d.x as int) + abs_int(d.y as int) == 1,
            h_cost == h_total(self.h, grid@),
        ensures
            r == h_total(self.h, grid@.step(d.x as int, d.y as int)),
    {
        let b = Ghost(grid@);
        let s = grid.size;
        let z = grid.zero;
        let p = Complex::new(z.x + d.x, z.y + d.y);
        let t = *grid.get_cell_ref(p);
        proof {
            lemma_cell_in_range(s as int, p.x as int, p.y as int);
            lemma_goal_cell_exists(s as int, t as int);
            lemma_index_coords(s as int, goal_cell(s as int, t as int));
            lemma_incremental_cost(self.h, b@, d.x as int, d.y as int);
            lemma_h_total_bound(self.h, b@);
            lemma_step_wf(b@, d.x as int, d.y as int);
            lemma_h_total_bound(self.h, b@.step(d.x as int, d.y as int));
        }
        let q = self.target_m[t as usize];
        let mut c = h_cost;
        c = c - self.h.dist(p, q) as i64;
        c = c + self.h.dist(z, q) as i64;
        c
    }
}

} // verus!
