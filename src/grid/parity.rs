//! The solvability test: inversions of the tiles read along the goal spiral.

use crate::complex::Complex;
use crate::grid::heuristic::{abs_int, goal_cell, lemma_goal_cell_exists};
use crate::grid::{
    dirs_spec, lemma_cell_in_range, lemma_index_coords, lemma_replay_wf, lemma_snail_rank_injective,
    lemma_snail_rank_parity, lemma_snail_rank_range, lemma_solved_is_permutation,
    lemma_step_distinct, lemma_step_wf, snail_rank, solved_board, Board, Grid, MAX_SIDE,
};
use vstd::prelude::*;

verus! {

/// The board's tiles listed in the order of the goal spiral: entry `k` is
/// the tile on the cell where the solved board holds `k + 1` (the last entry
/// is the tile on the goal's empty cell).
pub open spec fn unrolled(b: Board) -> Seq<i32> {
    Seq::new(b.n() as nat, |k: int| b.tiles[goal_cell(b.size, (k + 1) % b.n())])
}

/// Number of entries among the first `k` of `u` that exceed `x`.
pub open spec fn count_above(u: Seq<i32>, k: int, x: i32) -> int
    decreases k,
{
    if k <= 0 {
        0
    } else {
        count_above(u, k - 1, x) + if u[k - 1] > x {
            1int
        } else {
            0
        }
    }
}

/// Inversions among the first `k` entries: pairs `i < j` with
/// `u[i] > u[j]` and `u[j] != 0`.
pub open spec fn inversions_upto(u: Seq<i32>, k: int) -> int
    decreases k,
{
    if k <= 0 {
        0
    } else {
        inversions_upto(u, k - 1) + if u[k - 1] != 0 {
            count_above(u, k - 1, u[k - 1])
        } else {
            0
        }
    }
}

pub open spec fn inversions(u: Seq<i32>) -> int {
    inversions_upto(u, u.len() as int)
}

/// The parity test: a board is solvable when its spiral-ordered tiles have
/// an even number of inversions.
pub open spec fn solvable(b: Board) -> bool {
    inversions(unrolled(b)) % 2 == 0
}

proof fn lemma_count_above_bound(u: Seq<i32>, k: int, x: i32)
    requires
        0 <= k,
    ensures
        0 <= count_above(u, k, x) <= k,
    decreases k,
{
    if k > 0 {
        lemma_count_above_bound(u, k - 1, x);
    }
}

proof fn lemma_inversions_bound(u: Seq<i32>, k: int)
    requires
        0 <= k,
    ensures
        0 <= inversions_upto(u, k) <= k * k,
    decreases k,
{
    if k > 0 {
        lemma_inversions_bound(u, k - 1);
        lemma_count_above_bound(u, k - 1, u[k - 1]);
        assert((k - 1) * (k - 1) + (k - 1) <= k * k) by (nonlinear_arith)
            requires
                k >= 1,
        ;
    }
}

/// The board's tiles in the order of the goal spiral.
pub fn unroll(grid: &Grid) -> (u: Vec<i32>)
    requires
        grid@.wf(),
    ensures
        u@ == unrolled(grid@),
{
    let size = grid.size;
    let solved = Grid::create_solved_grid(size);
    proof {
        lemma_solved_is_permutation(size as int);
    }
    let n = grid.v.len();
    assert(n <= MAX_SIDE * MAX_SIDE) by (nonlinear_arith)
        requires
            1 <= size <= MAX_SIDE,
            n == size * size,
    ;
    let mut u: Vec<i32> = Vec::new();
    let mut i: usize = 0;
    while i < n
        invariant
            i <= n,
            u.len() == i,
        decreases n - i,
    {
        u.push(0);
        i = i + 1;
    }
    let mut i: usize = 0;
    while i < n
        invariant
            grid@.wf(),
            solved@ == solved_board(size as int),
            solved@.wf(),
            solved@.distinct(),
            size == grid.size,
            n == grid.v.len(),
            n == solved.v.len(),
            n <= MAX_SIDE * MAX_SIDE,
            i <= n,
            u.len() == n,
            forall|j: int|
                0 <= j < i ==> u@[(#[trigger] solved.v@[j] + n - 1) % (n as int)] == grid.v@[j],
        decreases n - i,
    {
        let k = ((solved.v[i] as usize) + n - 1) % n;
        let ghost prev = u@;
        u.set(k, grid.v[i]);
        proof {
            assert forall|j: int| 0 <= j < i + 1 implies u@[(#[trigger] solved.v@[j] + n - 1) % (
            n as int)] == grid.v@[j] by {
                if j < i {
                    let a = solved.v@[j] as int;
                    let b = solved.v@[i as int] as int;
                    assert(a != b);
                    lemma_previous_mod(a, n as int);
                    lemma_previous_mod(b, n as int);
                }
            }
        }
        i = i + 1;
    }
    proof {
        assert forall|k: int| 0 <= k < n implies u@[k] == #[trigger] unrolled(grid@)[k] by {
            let t = (k + 1) % (n as int);
            lemma_goal_cell_exists(size as int, t);
            let g = goal_cell(size as int, t);
            assert(solved.v@[g] == t);
            if k + 1 == n {
                vstd::arithmetic::div_mod::lemma_mod_self_0(n as int);
            } else {
                vstd::arithmetic::div_mod::lemma_small_mod((k + 1) as nat, n as nat);
            }
            lemma_previous_mod(t, n as int);
        }
        assert(u@ =~= unrolled(grid@));
    }
    u
}

/// Whether the board can reach the solved board: the number of inversions
/// of its spiral-ordered tiles is even.
pub fn is_solvable(grid: &Grid) -> (r: bool)
    requires
        grid@.wf(),
    ensures
        r == solvable(grid@),
{
    let u = unroll(grid);
    let n = u.len();
    assert(n <= MAX_SIDE * MAX_SIDE) by (nonlinear_arith)
        requires
            1 <= grid.size <= MAX_SIDE,
            n == grid.size * grid.size,
    ;
    let mut inversions: u64 = 0;
    let mut j: usize = 0;
    while j < n
        invariant
            n == u.len(),
            n <= MAX_SIDE * MAX_SIDE,
            j <= n,
            inversions == inversions_upto(u@, j as int),
        decreases n - j,
    {
        proof {
            lemma_inversions_bound(u@, j as int + 1);
            assert((j + 1) * (j + 1) <= MAX_SIDE * MAX_SIDE * MAX_SIDE * MAX_SIDE) by (nonlinear_arith)
                requires
                    j + 1 <= MAX_SIDE * MAX_SIDE,
            ;
        }
        if u[j] != 0 {
            let mut i: usize = 0;
            while i < j
                invariant
                    n == u.len(),
                    j < n,
                    i <= j,
                    u@[j as int] != 0,
                    inversions == inversions_upto(u@, j as int) + count_above(u@, i as int, u@[j as int]),
                    inversions_upto(u@, j as int + 1) <= MAX_SIDE * MAX_SIDE * MAX_SIDE * MAX_SIDE,
                decreases j - i,
            {
                proof {
                    lemma_count_above_bound(u@, i as int + 1, u@[j as int]);
                    lemma_count_above_bound(u@, j as int, u@[j as int]);
                    lemma_inversions_bound(u@, j as int);
                    // the partial count never exceeds the total for j + 1
                    assert(count_above(u@, i as int + 1, u@[j as int]) <= count_above(u@, j as int, u@[j as int])) by {
                        lemma_count_above_monotone(u@, i as int + 1, j as int, u@[j as int]);
                    }
                }
                if u[i] > u[j] {
                    inversions = inversions + 1;
                }
                i = i + 1;
            }
        }
        j = j + 1;
    }
    inversions % 2 == 0
}

proof fn lemma_previous_mod(a: int, n: int)
    requires
        0 <= a < n,
    ensures
        (a + n - 1) % n == if a == 0 {
            n - 1
        } else {
            a - 1
        },
{
    if a == 0 {
        vstd::arithmetic::div_mod::lemma_small_mod((n - 1) as nat, n as nat);
    } else {
        vstd::arithmetic::div_mod::lemma_mod_add_multiples_vanish(a - 1, n);
        vstd::arithmetic::div_mod::lemma_small_mod((a - 1) as nat, n as nat);
    }
}

proof fn lemma_count_above_monotone(u: Seq<i32>, a: int, b: int, x: i32)
    requires
        0 <= a <= b,
    ensures
        count_above(u, a, x) <= count_above(u, b, x),
    decreases b - a,
{
    if a < b {
        lemma_count_above_monotone(u, a, b - 1, x);
    }
}

/// `u` with the entries at `p` and `q` exchanged.
pub open spec fn swap_at(u: Seq<i32>, p: int, q: int) -> Seq<i32> {
    u.update(p, u[q]).update(q, u[p])
}

proof fn lemma_count_above_agree(u: Seq<i32>, v: Seq<i32>, m: int, x: i32)
    requires
        0 <= m <= u.len(),
        m <= v.len(),
        forall|i: int| 0 <= i < m ==> u[i] == v[i],
    ensures
        count_above(u, m, x) == count_above(v, m, x),
    decreases m,
{
    if m > 0 {
        lemma_count_above_agree(u, v, m - 1, x);
    }
}

proof fn lemma_inversions_agree(u: Seq<i32>, v: Seq<i32>, m: int)
    requires
        0 <= m <= u.len(),
        m <= v.len(),
        forall|i: int| 0 <= i < m ==> u[i] == v[i],
    ensures
        inversions_upto(u, m) == inversions_upto(v, m),
    decreases m,
{
    if m > 0 {
        lemma_inversions_agree(u, v, m - 1);
        lemma_count_above_agree(u, v, m - 1, u[m - 1]);
    }
}

/// Exchanging two neighbouring entries leaves the count of larger entries
/// before any later position unchanged.
proof fn lemma_count_above_adjacent(u: Seq<i32>, j: int, m: int, x: i32)
    requires
        0 <= j,
        j + 2 <= m <= u.len(),
    ensures
        count_above(swap_at(u, j, j + 1), m, x) == count_above(u, m, x),
    decreases m,
{
    let v = swap_at(u, j, j + 1);
    if m == j + 2 {
        lemma_count_above_agree(u, v, j, x);
        assert(count_above(v, j + 1, x) == count_above(v, j, x) + if v[j] > x {
            1int
        } else {
            0
        });
        assert(count_above(u, j + 1, x) == count_above(u, j, x) + if u[j] > x {
            1int
        } else {
            0
        });
    } else {
        lemma_count_above_adjacent(u, j, m - 1, x);
        assert(v[m - 1] == u[m - 1]);
    }
}

/// Exchanging neighbouring entries `j` and `j + 1` of a sequence of
/// non-negative values changes the inversions by one when both are non-zero
/// and different, and not at all when one of them is zero.
proof fn lemma_inversions_adjacent(u: Seq<i32>, j: int, m: int)
    requires
        0 <= j,
        j + 2 <= m <= u.len(),
        forall|i: int| 0 <= i < u.len() ==> 0 <= #[trigger] u[i],
        u[j] != u[j + 1],
    ensures
        inversions_upto(swap_at(u, j, j + 1), m) == inversions_upto(u, m) + if u[j] == 0 || u[j + 1]
            == 0 {
            0int
        } else if u[j] < u[j + 1] {
            1int
        } else {
            -1int
        },
    decreases m,
{
    let v = swap_at(u, j, j + 1);
    if m == j + 2 {
        lemma_inversions_agree(u, v, j);
        lemma_count_above_agree(u, v, j, u[j]);
        lemma_count_above_agree(u, v, j, u[j + 1]);
        assert(v[j] == u[j + 1] && v[j + 1] == u[j]);
        assert(inversions_upto(v, j + 1) == inversions_upto(v, j) + if v[j] != 0 {
            count_above(v, j, v[j])
        } else {
            0
        });
        assert(inversions_upto(u, j + 1) == inversions_upto(u, j) + if u[j] != 0 {
            count_above(u, j, u[j])
        } else {
            0
        });
        assert(count_above(v, j + 1, v[j + 1]) == count_above(v, j, v[j + 1]) + if v[j] > v[j + 1] {
            1int
        } else {
            0
        });
        assert(count_above(u, j + 1, u[j + 1]) == count_above(u, j, u[j + 1]) + if u[j] > u[j + 1] {
            1int
        } else {
            0
        });
    } else {
        lemma_inversions_adjacent(u, j, m - 1);
        lemma_count_above_adjacent(u, j, m - 1, u[m - 1]);
        assert(v[m - 1] == u[m - 1]);
    }
}

/// Exchanging the zero with another entry across `q - p - 1` non-zero entries
/// changes the parity of the inversions by that count.
proof fn lemma_inversions_swap_zero(u: Seq<i32>, p: int, q: int)
    requires
        0 <= p < q < u.len(),
        u[p] == 0 || u[q] == 0,
        u[p] != u[q],
        forall|i: int| 0 <= i < u.len() ==> 0 <= #[trigger] u[i],
        forall|i: int| p < i < q ==> #[trigger] u[i] != 0,
        forall|i: int, k: int| 0 <= i < u.len() && 0 <= k < u.len() && i != k ==> u[i] != u[k],
    ensures
        (inversions(swap_at(u, p, q)) - inversions(u) - (q - p - 1)) % 2 == 0,
    decreases q - p,
{
    let n = u.len() as int;
    if q == p + 1 {
        lemma_inversions_adjacent(u, p, n);
    } else {
        let a = swap_at(u, q - 1, q);
        lemma_inversions_adjacent(u, q - 1, n);
        assert forall|i: int| 0 <= i < a.len() implies 0 <= #[trigger] a[i] by {}
        assert forall|i: int| p < i < q - 1 implies #[trigger] a[i] != 0 by {}
        assert forall|i: int, k: int| 0 <= i < a.len() && 0 <= k < a.len() && i != k implies a[i]
            != a[k] by {
            let ii = if i == q - 1 {
                q
            } else if i == q {
                q - 1
            } else {
                i
            };
            let kk = if k == q - 1 {
                q
            } else if k == q {
                q - 1
            } else {
                k
            };
            assert(a[i] == u[ii] && a[k] == u[kk]);
        }
        lemma_inversions_swap_zero(a, p, q - 1);
        let b = swap_at(a, p, q - 1);
        assert forall|i: int| 0 <= i < b.len() implies 0 <= #[trigger] b[i] by {}
        assert(b[q - 1] != b[q]);
        lemma_inversions_adjacent(b, q - 1, n);
        assert(swap_at(b, q - 1, q) =~= swap_at(u, p, q));
        assert(u[q - 1] != 0);
    }
}

/// Spiral position of cell `i` on a board of side `s`.
pub open spec fn cell_rank(s: int, i: int) -> int {
    snail_rank(s, i % s, i / s)
}

/// The goal cell of the tile that follows spiral position `rank(i)` is `i`.
proof fn lemma_goal_cell_of_rank(s: int, i: int)
    requires
        1 <= s <= MAX_SIDE,
        0 <= i < s * s,
    ensures
        0 <= cell_rank(s, i) < s * s,
        solved_board(s).tiles[i] == (cell_rank(s, i) + 1) % (s * s),
        goal_cell(s, (cell_rank(s, i) + 1) % (s * s)) == i,
{
    let n = s * s;
    assert(s * s <= MAX_SIDE * MAX_SIDE) by (nonlinear_arith)
        requires
            1 <= s <= MAX_SIDE,
    ;
    lemma_index_coords(s, i);
    lemma_snail_rank_range(s, i % s, i / s);
    lemma_solved_is_permutation(s);
    let r = cell_rank(s, i);
    let t = (r + 1) % n;
    if r + 1 == n {
        vstd::arithmetic::div_mod::lemma_mod_self_0(n);
    } else {
        vstd::arithmetic::div_mod::lemma_small_mod((r + 1) as nat, n as nat);
    }
    assert(0 <= t < n);
    assert(solved_board(s).tiles[i] == t);
    lemma_goal_cell_exists(s, t);
}

/// The goal cell of each value has the spiral position just before it.
proof fn lemma_rank_of_goal_cell(s: int, k: int)
    requires
        1 <= s <= MAX_SIDE,
        0 <= k < s * s,
    ensures
        0 <= goal_cell(s, (k + 1) % (s * s)) < s * s,
        cell_rank(s, goal_cell(s, (k + 1) % (s * s))) == k,
{
    let n = s * s;
    let t = (k + 1) % n;
    if k + 1 == n {
        vstd::arithmetic::div_mod::lemma_mod_self_0(n);
    } else {
        vstd::arithmetic::div_mod::lemma_small_mod((k + 1) as nat, n as nat);
    }
    lemma_goal_cell_exists(s, t);
    let g = goal_cell(s, t);
    lemma_goal_cell_of_rank(s, g);
    let r = cell_rank(s, g);
    // both r and k give the tile t = (r + 1) % n at g
    if r + 1 == n {
        vstd::arithmetic::div_mod::lemma_mod_self_0(n);
    } else {
        vstd::arithmetic::div_mod::lemma_small_mod((r + 1) as nat, n as nat);
    }
    assert(solved_board(s).tiles[g] == t);
    lemma_index_coords(s, g);
}

/// A unit move exchanges, in the spiral-ordered tiles, the entries at the
/// spiral positions of the two cells involved.
proof fn lemma_step_unrolled(b: Board, dx: int, dy: int)
    requires
        b.wf(),
        b.legal(dx, dy),
    ensures
        unrolled(b.step(dx, dy)) == swap_at(
            unrolled(b),
            cell_rank(b.size, b.cell(b.zx, b.zy)),
            cell_rank(b.size, b.cell(b.zx + dx, b.zy + dy)),
        ),
{
    let s = b.size;
    let n = b.n();
    let z = b.cell(b.zx, b.zy);
    let t = b.cell(b.zx + dx, b.zy + dy);
    lemma_cell_in_range(s, b.zx, b.zy);
    lemma_cell_in_range(s, b.zx + dx, b.zy + dy);
    lemma_goal_cell_of_rank(s, z);
    lemma_goal_cell_of_rank(s, t);
    let rz = cell_rank(s, z);
    let rt = cell_rank(s, t);
    let u = unrolled(b);
    let c = b.step(dx, dy);
    assert(u[rz] == b.tiles[z]);
    assert(u[rt] == b.tiles[t]);
    assert forall|k: int| 0 <= k < n implies #[trigger] unrolled(c)[k] == swap_at(u, rz, rt)[k] by {
        lemma_rank_of_goal_cell(s, k);
        let g = goal_cell(s, (k + 1) % n);
        if g == z {
            assert(k == rz);
        } else if g == t {
            assert(k == rt);
        } else {
            assert(k != rz && k != rt);
        }
    }
    assert(unrolled(c) =~= swap_at(u, rz, rt));
}

/// A unit move keeps the parity of the inversions, so it keeps a board
/// solvable or unsolvable.
pub proof fn lemma_move_keeps_parity(b: Board, d: Complex<i32>)
    requires
        b.wf(),
        b.distinct(),
        dirs_spec().contains(d),
        b.legal(d.x as int, d.y as int),
    ensures
        solvable(b.step(d.x as int, d.y as int)) == solvable(b),
{
    let dx = d.x as int;
    let dy = d.y as int;
    let s = b.size;
    let n = b.n();
    let z = b.cell(b.zx, b.zy);
    let t = b.cell(b.zx + dx, b.zy + dy);
    let i = choose|i: int| 0 <= i < 4 && dirs_spec()[i] == d;
    assert(abs_int(dx) + abs_int(dy) == 1);
    lemma_cell_in_range(s, b.zx, b.zy);
    lemma_cell_in_range(s, b.zx + dx, b.zy + dy);
    lemma_step_unrolled(b, dx, dy);
    lemma_goal_cell_of_rank(s, z);
    lemma_goal_cell_of_rank(s, t);
    let rz = cell_rank(s, z);
    let rt = cell_rank(s, t);
    lemma_snail_rank_parity(s, b.zx, b.zy);
    lemma_snail_rank_parity(s, b.zx + dx, b.zy + dy);
    assert(rz != rt) by {
        lemma_snail_rank_injective(s, b.zx, b.zy, b.zx + dx, b.zy + dy);
    }
    let u = unrolled(b);
    // the spiral-ordered tiles are the board's tiles, each once
    assert forall|k: int| 0 <= k < n implies 0 <= #[trigger] u[k] && (u[k] == 0 ==> k == rz) by {
        lemma_rank_of_goal_cell(s, k);
        let g = goal_cell(s, (k + 1) % n);
        if u[k] == 0 && g != z {
            assert(b.tiles[g] == b.tiles[z]);
        }
    }
    assert forall|k: int, l: int| 0 <= k < u.len() && 0 <= l < u.len() && k != l implies u[k]
        != u[l] by {
        lemma_rank_of_goal_cell(s, k);
        lemma_rank_of_goal_cell(s, l);
    }
    assert(u[rz] == 0 && u[rt] == b.tiles[t]);
    assert(b.tiles[t] != 0);
    let p = if rz < rt {
        rz
    } else {
        rt
    };
    let q = if rz < rt {
        rt
    } else {
        rz
    };
    assert forall|k: int| p < k < q implies #[trigger] u[k] != 0 by {}
    lemma_inversions_swap_zero(u, p, q);
    assert(swap_at(u, p, q) =~= swap_at(u, rz, rt));
    assert((q - p) % 2 == 1);
}

/// The moves of a legal sequence keep the parity of the inversions.
pub proof fn lemma_replay_keeps_parity(b: Board, ops: Seq<Complex<i32>>)
    requires
        b.wf(),
        b.distinct(),
        b.replay_legal(ops),
        forall|i: int| 0 <= i < ops.len() ==> dirs_spec().contains(#[trigger] ops[i]),
    ensures
        solvable(b.replay(ops)) == solvable(b),
        b.replay(ops).wf(),
        b.replay(ops).distinct(),
    decreases ops.len(),
{
    if ops.len() > 0 {
        let prev = ops.drop_last();
        assert forall|i: int| 0 <= i < prev.len() implies dirs_spec().contains(#[trigger] prev[i]) by {
            assert(prev[i] == ops[i]);
        }
        lemma_replay_keeps_parity(b, prev);
        let d = ops.last();
        assert(dirs_spec().contains(ops[ops.len() - 1]));
        let r = b.replay(prev);
        lemma_move_keeps_parity(r, d);
        lemma_step_wf(r, d.x as int, d.y as int);
        lemma_step_distinct(r, d.x as int, d.y as int);
    }
}

/// The solved board passes the parity test: read along the spiral it is
/// `1, 2, …, S²−1, 0`, without inversions.
pub proof fn lemma_solved_solvable(s: int)
    requires
        1 <= s <= MAX_SIDE,
    ensures
        solvable(solved_board(s)),
{
    let b = solved_board(s);
    let n = s * s;
    let u = unrolled(b);
    assert(n >= 1) by (nonlinear_arith)
        requires
            s >= 1,
            n == s * s,
    ;
    assert forall|k: int| 0 <= k < n implies #[trigger] u[k] == (k + 1) % n by {
        lemma_rank_of_goal_cell(s, k);
        lemma_goal_cell_exists(s, (k + 1) % n);
    }
    lemma_no_inversions(u, n);
}

proof fn lemma_no_inversions(u: Seq<i32>, m: int)
    requires
        0 <= m <= u.len(),
        forall|k: int| 0 <= k < u.len() ==> #[trigger] u[k] == (k + 1) % (u.len() as int),
    ensures
        inversions_upto(u, m) == 0,
    decreases m,
{
    if m > 0 {
        lemma_no_inversions(u, m - 1);
        let j = m - 1;
        let n = u.len() as int;
        if j + 1 < n {
            vstd::arithmetic::div_mod::lemma_small_mod((j + 1) as nat, n as nat);
            lemma_count_above_small(u, j, u[j]);
        } else {
            vstd::arithmetic::div_mod::lemma_mod_self_0(n);
        }
    }
}

proof fn lemma_count_above_small(u: Seq<i32>, j: int, x: i32)
    requires
        0 <= j < u.len(),
        j + 1 <= x,
        forall|i: int| 0 <= i < u.len() ==> #[trigger] u[i] == (i + 1) % (u.len() as int),
    ensures
        count_above(u, j, x) == 0,
    decreases j,
{
    if j > 0 {
        let n = u.len() as int;
        lemma_count_above_small(u, j - 1, x);
        vstd::arithmetic::div_mod::lemma_small_mod(j as nat, n as nat);
        assert(u[j - 1] == j);
    }
}

} // verus!
