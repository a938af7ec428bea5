//! The board: an S×S grid of tiles `0..S²` in row-major order, `0` being the
//! empty cell, and the moves that slide a neighbour into the empty cell.

use crate::complex::Complex;
use crate::grid::parity::{lemma_replay_keeps_parity, lemma_solved_solvable, solvable};
use vstd::prelude::*;

pub mod heuristic;
pub mod parity;
pub mod parser;
pub mod solver;
mod table;

verus! {

/// Largest side whose cell count still fits in an `i32`.
pub const MAX_SIDE: i32 = 46340;

/// Mathematical model of a board.
pub struct Board {
    pub tiles: Seq<i32>,
    pub size: int,
    pub zx: int,
    pub zy: int,
}

impl Board {
    pub open spec fn n(self) -> int {
        self.size * self.size
    }

    pub open spec fn in_bounds(self, x: int, y: int) -> bool {
        0 <= x < self.size && 0 <= y < self.size
    }

    /// Row-major index of cell `(x, y)`.
    pub open spec fn cell(self, x: int, y: int) -> int {
        y * self.size + x
    }

    /// The shape invariants: side, length, tile range, empty-cell coordinates.
    pub open spec fn wf(self) -> bool {
        &&& 1 <= self.size <= MAX_SIDE
        &&& self.tiles.len() == self.n()
        &&& forall|i: int| 0 <= i < self.tiles.len() ==> 0 <= #[trigger] self.tiles[i] < self.n()
        &&& self.in_bounds(self.zx, self.zy)
        &&& self.tiles[self.cell(self.zx, self.zy)] == 0
    }

    /// No tile occurs twice (with `wf`, the tiles are a permutation of `0..S²`).
    pub open spec fn distinct(self) -> bool {
        forall|i: int, j: int|
            0 <= i < self.tiles.len() && 0 <= j < self.tiles.len() && i != j ==> self.tiles[i]
                != self.tiles[j]
    }

    /// A move by `(dx, dy)` keeps the empty cell on the board.
    pub open spec fn legal(self, dx: int, dy: int) -> bool {
        self.in_bounds(self.zx + dx, self.zy + dy)
    }

    /// Swap the empty cell with the cell at offset `(dx, dy)`.
    pub open spec fn step(self, dx: int, dy: int) -> Board {
        let z = self.cell(self.zx, self.zy);
        let t = self.cell(self.zx + dx, self.zy + dy);
        Board {
            tiles: self.tiles.update(z, self.tiles[t]).update(t, self.tiles[z]),
            size: self.size,
            zx: self.zx + dx,
            zy: self.zy + dy,
        }
    }

    /// The board after the moves of `ops`, first to last.
    pub open spec fn replay(self, ops: Seq<Complex<i32>>) -> Board
        decreases ops.len(),
    {
        if ops.len() == 0 {
            self
        } else {
            let prev = self.replay(ops.drop_last());
            prev.step(ops.last().x as int, ops.last().y as int)
        }
    }

    /// Every move of `ops` is legal where it is made.
    pub open spec fn replay_legal(self, ops: Seq<Complex<i32>>) -> bool
        decreases ops.len(),
    {
        ops.len() == 0 || {
            &&& self.replay_legal(ops.drop_last())
            &&& self.replay(ops.drop_last()).legal(ops.last().x as int, ops.last().y as int)
        }
    }
}

/// The four unit moves, in their fixed enumeration order.
pub open spec fn dirs_spec() -> Seq<Complex<i32>> {
    seq![
        Complex { x: 0i32, y: 1i32 },
        Complex { x: 1i32, y: 0i32 },
        Complex { x: 0i32, y: -1i32 },
        Complex { x: -1i32, y: 0i32 },
    ]
}

/// The moves of `ops` negated, last first: they walk `ops` back.
pub open spec fn undo_ops(ops: Seq<Complex<i32>>) -> Seq<Complex<i32>>
    decreases ops.len(),
{
    if ops.len() == 0 {
        seq![]
    } else {
        let d = ops.last();
        seq![Complex { x: (-d.x) as i32, y: (-d.y) as i32 }] + undo_ops(ops.drop_last())
    }
}

pub open spec fn min_int(a: int, b: int) -> int {
    if a <= b {
        a
    } else {
        b
    }
}

/// Ring of the spiral that cell `(x, y)` lies on, counted from the border.
pub open spec fn snail_layer(s: int, x: int, y: int) -> int {
    min_int(min_int(x, y), min_int(s - 1 - x, s - 1 - y))
}

/// Position of cell `(x, y)` along the clockwise inward spiral that starts
/// at `(0, 0)` and first walks right.
pub open spec fn snail_rank(s: int, x: int, y: int) -> int {
    let k = snail_layer(s, x, y);
    let m = s - 2 * k;
    let a = x - k;
    let b = y - k;
    let pos = if m == 1 {
        0
    } else if b == 0 {
        a
    } else if a == m - 1 {
        (m - 1) + b
    } else if b == m - 1 {
        3 * (m - 1) - a
    } else {
        4 * (m - 1) - b
    };
    s * s - m * m + pos
}

/// Tile of the solved board at `(x, y)`: `1, 2, …` along the spiral, `0` last.
pub open spec fn snail_tile(s: int, x: int, y: int) -> int {
    if snail_rank(s, x, y) + 1 == s * s {
        0
    } else {
        snail_rank(s, x, y) + 1
    }
}

/// The solved board of side `s`.
pub open spec fn solved_board(s: int) -> Board {
    Board {
        tiles: Seq::new((s * s) as nat, |i: int| snail_tile(s, i % s, i / s) as i32),
        size: s,
        zx: (s - 1) / 2,
        zy: s / 2,
    }
}

/// Cell `(x, y)` of a board of side `s` has a row-major index in `0..s²`
/// from which `x` and `y` come back.
pub proof fn lemma_cell_in_range(s: int, x: int, y: int)
    requires
        0 <= x < s,
        0 <= y < s,
    ensures
        0 <= y * s + x < s * s,
        (y * s + x) % s == x,
        (y * s + x) / s == y,
{
    assert(0 <= y * s) by (nonlinear_arith)
        requires
            0 <= y,
            0 <= s,
    ;
    assert(y * s + x < s * s) by (nonlinear_arith)
        requires
            0 <= x < s,
            0 <= y < s,
    ;
    vstd::arithmetic::div_mod::lemma_fundamental_div_mod_converse(y * s + x, s, y, x);
}

/// Cell index `i` of a board of side `s` has coordinates `(i % s, i / s)`.
pub proof fn lemma_index_coords(s: int, i: int)
    requires
        1 <= s,
        0 <= i < s * s,
    ensures
        0 <= i % s < s,
        0 <= i / s < s,
        (i / s) * s + i % s == i,
{
    vstd::arithmetic::div_mod::lemma_fundamental_div_mod(i, s);
    vstd::arithmetic::div_mod::lemma_div_pos_is_pos(i, s);
    vstd::arithmetic::div_mod::lemma_mod_bound(i, s);
    vstd::arithmetic::div_mod::lemma_div_by_multiple_is_strongly_ordered(i, s * s, s, s);
    assert((s * s) / s == s) by {
        vstd::arithmetic::div_mod::lemma_div_by_multiple(s, s);
    }
    assert(i / s * s == s * (i / s)) by (nonlinear_arith);
}

/// The spiral position of every cell lies in `0..s²`.
pub proof fn lemma_snail_rank_range(s: int, x: int, y: int)
    requires
        1 <= s,
        0 <= x < s,
        0 <= y < s,
    ensures
        0 <= snail_rank(s, x, y) < s * s,
{
    let k = snail_layer(s, x, y);
    let m = s - 2 * k;
    assert(0 <= k && 1 <= m <= s);
    assert(m * m <= s * s) by (nonlinear_arith)
        requires
            1 <= m <= s,
    ;
    if m >= 2 {
        assert((m - 2) * (m - 2) >= 0) by (nonlinear_arith);
        assert(m * m - 4 * m + 4 == (m - 2) * (m - 2)) by (nonlinear_arith);
    }
}

/// Each value `0..s²` is a tile of the solved board of side `s`.
pub proof fn lemma_solved_wf(s: int)
    requires
        1 <= s <= MAX_SIDE,
    ensures
        solved_board(s).wf(),
{
    let b = solved_board(s);
    assert(s * s <= MAX_SIDE * MAX_SIDE) by (nonlinear_arith)
        requires
            1 <= s <= MAX_SIDE,
    ;
    assert forall|i: int| 0 <= i < b.tiles.len() implies 0 <= #[trigger] b.tiles[i] < b.n() by {
        lemma_index_coords(s, i);
        lemma_snail_rank_range(s, i % s, i / s);
    }
    let q = s / 2;
    let zx = (s - 1) / 2;
    let zy = s / 2;
    lemma_cell_in_range(s, zx, zy);
    assert(snail_tile(s, zx, zy) == 0) by {
        if s % 2 == 1 {
            assert(s == 2 * q + 1);
            assert(zx == q && zy == q);
            assert(snail_layer(s, zx, zy) == q);
            assert(s - 2 * q == 1);
            assert(snail_rank(s, zx, zy) == s * s - 1 * 1 + 0);
        } else {
            assert(s == 2 * q);
            assert(zx == q - 1 && zy == q);
            assert(snail_layer(s, zx, zy) == q - 1);
            assert(s - 2 * (q - 1) == 2);
            assert(snail_rank(s, zx, zy) == s * s - 2 * 2 + 3);
        }
    }
    assert(b.tiles[b.cell(zx, zy)] == 0);
}

/// Two different cells have different spiral positions.
pub proof fn lemma_snail_rank_injective(s: int, x1: int, y1: int, x2: int, y2: int)
    requires
        1 <= s,
        0 <= x1 < s,
        0 <= y1 < s,
        0 <= x2 < s,
        0 <= y2 < s,
        x1 != x2 || y1 != y2,
    ensures
        snail_rank(s, x1, y1) != snail_rank(s, x2, y2),
{
    let k1 = snail_layer(s, x1, y1);
    let k2 = snail_layer(s, x2, y2);
    let m1 = s - 2 * k1;
    let m2 = s - 2 * k2;
    lemma_snail_rank_range(s, x1, y1);
    lemma_snail_rank_range(s, x2, y2);
    if k1 < k2 {
        lemma_outer_ring_first(s, m1, m2, snail_rank(s, x1, y1) - (s * s - m1 * m1));
    } else if k2 < k1 {
        lemma_outer_ring_first(s, m2, m1, snail_rank(s, x2, y2) - (s * s - m2 * m2));
    }
}

/// Every position on a ring of side `m1` comes before the start of any ring
/// inside it.
proof fn lemma_outer_ring_first(s: int, m1: int, m2: int, pos: int)
    requires
        1 <= m2,
        m2 + 2 <= m1,
        0 <= pos <= 4 * (m1 - 1) - 1,
    ensures
        s * s - m1 * m1 + pos < s * s - m2 * m2,
{
    assert(m2 * m2 <= (m1 - 2) * (m1 - 2)) by (nonlinear_arith)
        requires
            1 <= m2 <= m1 - 2,
    ;
    assert((m1 - 2) * (m1 - 2) == m1 * m1 - 4 * m1 + 4) by (nonlinear_arith);
}

/// Consecutive spiral positions are neighbouring cells, so a cell's spiral
/// position has the parity of `x + y`.
pub proof fn lemma_snail_rank_parity(s: int, x: int, y: int)
    requires
        1 <= s,
        0 <= x < s,
        0 <= y < s,
    ensures
        snail_rank(s, x, y) % 2 == (x + y) % 2,
{
    let k = snail_layer(s, x, y);
    let m = s - 2 * k;
    let a = x - k;
    let b = y - k;
    let c = k * s - k * k;
    assert(s * s - m * m == 4 * c) by (nonlinear_arith)
        requires
            m == s - 2 * k,
            c == k * s - k * k,
    ;
    let pos = snail_rank(s, x, y) - (s * s - m * m);
    assert(pos % 2 == (a + b) % 2);
    assert((4 * c + pos) % 2 == pos % 2);
}

/// `n` pairwise different values of `0..n` include each value of `0..n`.
pub proof fn lemma_distinct_covers(tiles: Seq<i32>, n: int)
    requires
        tiles.len() == n,
        forall|i: int| 0 <= i < n ==> 0 <= #[trigger] tiles[i] < n,
        forall|i: int, j: int| 0 <= i < n && 0 <= j < n && i != j ==> tiles[i] != tiles[j],
    ensures
        forall|t: i32| 0 <= t < n ==> #[trigger] tiles.contains(t),
{
    let dom = vstd::set_lib::set_int_range(0, n);
    let f = |i: int| tiles[i] as int;
    vstd::set_lib::lemma_int_range(0, n);
    assert(vstd::relations::injective_on(f, dom));
    vstd::set_lib::lemma_map_size(dom, dom.map(f), f);
    assert(dom.map(f).subset_of(dom)) by {
        assert forall|t: int| dom.map(f).contains(t) implies dom.contains(t) by {
            let i = choose|i: int| dom.contains(i) && f(i) == t;
        }
    }
    vstd::set_lib::lemma_subset_equality(dom.map(f), dom);
    assert forall|t: i32| 0 <= t < n implies #[trigger] tiles.contains(t) by {
        assert(dom.contains(t as int));
        assert(dom.map(f).contains(t as int));
        let i = choose|i: int| dom.contains(i) && f(i) == t as int;
        assert(tiles[i] == t);
    }
}

/// The solved board holds every value of `0..s²` exactly once, and its
/// recorded empty cell holds `0`.
pub proof fn lemma_solved_is_permutation(s: int)
    requires
        1 <= s <= MAX_SIDE,
    ensures
        solved_board(s).wf(),
        solved_board(s).distinct(),
        forall|t: i32| 0 <= t < s * s ==> #[trigger] solved_board(s).tiles.contains(t),
{
    lemma_solved_wf(s);
    let b = solved_board(s);
    let n = s * s;
    assert(s * s <= MAX_SIDE * MAX_SIDE) by (nonlinear_arith)
        requires
            1 <= s <= MAX_SIDE,
    ;
    assert forall|i: int, j: int|
        0 <= i < b.tiles.len() && 0 <= j < b.tiles.len() && i != j implies b.tiles[i]
        != b.tiles[j] by {
        lemma_index_coords(s, i);
        lemma_index_coords(s, j);
        assert(i % s != j % s || i / s != j / s);
        lemma_snail_rank_injective(s, i % s, i / s, j % s, j / s);
        lemma_snail_rank_range(s, i % s, i / s);
        lemma_snail_rank_range(s, j % s, j / s);
    }
    lemma_distinct_covers(b.tiles, n);
}

/// A well-formed board with the tiles of the solved board is the solved
/// board: the empty cell is where the solved board keeps `0`.
pub proof fn lemma_solved_tiles(b: Board)
    requires
        b.wf(),
        b.tiles == solved_board(b.size).tiles,
    ensures
        b == solved_board(b.size),
{
    let s = b.size;
    let g = solved_board(s);
    lemma_solved_is_permutation(s);
    lemma_cell_in_range(s, b.zx, b.zy);
    lemma_cell_in_range(s, g.zx, g.zy);
    assert(b.cell(b.zx, b.zy) == g.cell(g.zx, g.zy));
}

/// Two well-formed boards of one side with the same tiles, pairwise
/// different, are the same board: the empty cell is where `0` is.
pub proof fn lemma_same_tiles_same_board(a: Board, b: Board)
    requires
        a.wf(),
        b.wf(),
        a.distinct(),
        a.size == b.size,
        a.tiles == b.tiles,
    ensures
        a == b,
{
    lemma_cell_in_range(a.size, a.zx, a.zy);
    lemma_cell_in_range(b.size, b.zx, b.zy);
    assert(a.cell(a.zx, a.zy) == b.cell(b.zx, b.zy));
}

/// One move keeps the board's shape invariants.
pub proof fn lemma_step_wf(b: Board, dx: int, dy: int)
    requires
        b.wf(),
        b.legal(dx, dy),
    ensures
        b.step(dx, dy).wf(),
{
    lemma_cell_in_range(b.size, b.zx, b.zy);
    lemma_cell_in_range(b.size, b.zx + dx, b.zy + dy);
    let c = b.step(dx, dy);
    assert forall|i: int| 0 <= i < c.tiles.len() implies 0 <= #[trigger] c.tiles[i] < c.n() by {
        let z = b.cell(b.zx, b.zy);
        let t = b.cell(b.zx + dx, b.zy + dy);
        if i != z && i != t {
            assert(c.tiles[i] == b.tiles[i]);
        }
    }
}

/// A move only swaps the empty cell with a neighbour: the multiset of tiles
/// is unchanged and the empty cell moves by the offset.
pub proof fn lemma_op_keeps_tiles(b: Board, dx: int, dy: int)
    requires
        b.wf(),
        b.legal(dx, dy),
    ensures
        b.step(dx, dy).tiles.to_multiset() == b.tiles.to_multiset(),
        b.step(dx, dy).zx == b.zx + dx,
        b.step(dx, dy).zy == b.zy + dy,
        b.step(dx, dy).wf(),
{
    broadcast use
        vstd::seq_lib::to_multiset_update,
        vstd::seq_lib::group_to_multiset_ensures,
        vstd::multiset::group_multiset_properties,
    ;

    lemma_step_wf(b, dx, dy);
    lemma_cell_in_range(b.size, b.zx, b.zy);
    lemma_cell_in_range(b.size, b.zx + dx, b.zy + dy);
    let z = b.cell(b.zx, b.zy);
    let t = b.cell(b.zx + dx, b.zy + dy);
    let m = b.tiles.to_multiset();
    let s1 = b.tiles.update(z, b.tiles[t]);
    if z == t {
        assert(b.step(dx, dy).tiles =~= b.tiles);
    } else {
        assert(s1.to_multiset() == m.insert(b.tiles[t]).remove(b.tiles[z]));
        assert(s1[t] == b.tiles[t]);
        assert(s1.update(t, b.tiles[z]).to_multiset() == s1.to_multiset().insert(b.tiles[z]).remove(
            b.tiles[t],
        ));
        assert(m.count(b.tiles[z]) > 0) by {
            assert(b.tiles.contains(b.tiles[z]));
        }
        assert(m.insert(b.tiles[t]).remove(b.tiles[z]).insert(b.tiles[z]).remove(b.tiles[t])
            =~= m);
    }
}

/// A move keeps the tiles pairwise different.
pub proof fn lemma_step_distinct(b: Board, dx: int, dy: int)
    requires
        b.wf(),
        b.distinct(),
        b.legal(dx, dy),
    ensures
        b.step(dx, dy).distinct(),
{
    lemma_cell_in_range(b.size, b.zx, b.zy);
    lemma_cell_in_range(b.size, b.zx + dx, b.zy + dy);
    let z = b.cell(b.zx, b.zy);
    let t = b.cell(b.zx + dx, b.zy + dy);
    let c = b.step(dx, dy);
    // position of each cell's tile on the board before the move
    let src = |i: int|
        if i == t {
            z
        } else if i == z {
            t
        } else {
            i
        };
    assert forall|i: int| 0 <= i < c.tiles.len() implies #[trigger] c.tiles[i] == b.tiles[src(i)] by {}
}

/// A move followed by the opposite move gives back the board.
pub proof fn lemma_op_undo(b: Board, dx: int, dy: int)
    requires
        b.wf(),
        b.legal(dx, dy),
    ensures
        b.step(dx, dy).legal(-dx, -dy),
        b.step(dx, dy).step(-dx, -dy) == b,
{
    lemma_cell_in_range(b.size, b.zx, b.zy);
    lemma_cell_in_range(b.size, b.zx + dx, b.zy + dy);
    let c = b.step(dx, dy);
    assert(c.step(-dx, -dy).tiles =~= b.tiles);
}

/// A legal sequence of moves keeps the shape invariants.
pub proof fn lemma_replay_wf(b: Board, ops: Seq<Complex<i32>>)
    requires
        b.wf(),
        b.replay_legal(ops),
    ensures
        b.replay(ops).wf(),
        b.replay(ops).size == b.size,
    decreases ops.len(),
{
    if ops.len() > 0 {
        lemma_replay_wf(b, ops.drop_last());
        lemma_step_wf(b.replay(ops.drop_last()), ops.last().x as int, ops.last().y as int);
    }
}

/// Replaying `ops` and then `more` is replaying their concatenation.
pub proof fn lemma_replay_concat(b: Board, ops: Seq<Complex<i32>>, more: Seq<Complex<i32>>)
    ensures
        b.replay(ops + more) == b.replay(ops).replay(more),
        b.replay_legal(ops + more) == (b.replay_legal(ops) && b.replay(ops).replay_legal(more)),
    decreases more.len(),
{
    if more.len() == 0 {
        assert(ops + more =~= ops);
    } else {
        assert((ops + more).drop_last() =~= ops + more.drop_last());
        assert((ops + more).last() == more.last());
        lemma_replay_concat(b, ops, more.drop_last());
    }
}

/// Walking a legal move sequence back from where it ends returns to its start.
pub proof fn lemma_undo_ops(b: Board, ops: Seq<Complex<i32>>)
    requires
        b.wf(),
        b.replay_legal(ops),
        forall|i: int|
            0 <= i < ops.len() ==> -1 <= (#[trigger] ops[i]).x <= 1 && -1 <= ops[i].y <= 1,
    ensures
        b.replay(ops).replay_legal(undo_ops(ops)),
        b.replay(ops).replay(undo_ops(ops)) == b,
    decreases ops.len(),
{
    if ops.len() > 0 {
        let prev = ops.drop_last();
        let d = ops.last();
        let p = b.replay(prev);
        assert forall|i: int| 0 <= i < prev.len() implies -1 <= (#[trigger] prev[i]).x <= 1 && -1
            <= prev[i].y <= 1 by {
            assert(prev[i] == ops[i]);
        }
        lemma_undo_ops(b, prev);
        lemma_replay_wf(b, prev);
        lemma_op_undo(p, d.x as int, d.y as int);
        let back = Complex { x: (-d.x) as i32, y: (-d.y) as i32 };
        let one = seq![back];
        let q = p.step(d.x as int, d.y as int);
        assert(ops[ops.len() - 1] == d);
        assert(one.drop_last() =~= Seq::<Complex<i32>>::empty());
        assert(q.replay(one.drop_last()) == q);
        assert(q.replay_legal(one.drop_last()));
        assert(one.last() == back);
        assert(q.replay(one) == p);
        assert(p.step(d.x as int, d.y as int).replay_legal(one));
        assert(undo_ops(ops) == one + undo_ops(prev));
        lemma_replay_concat(b.replay(ops), one, undo_ops(prev));
    }
}

/// A puzzle board: tiles in row-major order, the side, and the coordinates of
/// the empty cell (tile `0`).
#[derive(Clone, Debug)]
pub struct Grid {
    pub v: Vec<i32>,
    pub size: i32,
    pub zero: Complex<i32>,
}

impl View for Grid {
    type V = Board;

    open spec fn view(&self) -> Board {
        Board {
            tiles: self.v@,
            size: self.size as int,
            zx: self.zero.x as int,
            zy: self.zero.y as int,
        }
    }
}

/// Relies on rand's `IteratorRandom::choose` with `thread_rng`: it yields one
/// element of a non-empty slice.
#[verifier::external_body]
fn choose_move(moves: &Vec<Complex<i32>>) -> (r: Complex<i32>)
    requires
        moves.len() > 0,
    ensures
        moves@.contains(r),
{
    *rand::seq::IteratorRandom::choose(moves.iter(), &mut rand::thread_rng()).unwrap()
}

/// A copy of a tile vector.
pub fn copy_tiles(v: &Vec<i32>) -> (r: Vec<i32>)
    ensures
        r@ == v@,
{
    let mut r: Vec<i32> = Vec::new();
    let mut i: usize = 0;
    while i < v.len()
        invariant
            i <= v.len(),
            r@ == v@.subrange(0, i as int),
        decreases v.len() - i,
    {
        r.push(v[i]);
        i = i + 1;
        assert(r@ =~= v@.subrange(0, i as int));
    }
    assert(v@.subrange(0, v.len() as int) =~= v@);
    r
}

impl Grid {
    /// A copy of the board.
    pub fn duplicate(&self) -> (r: Self)
        ensures
            r@ == self@,
    {
        Grid { v: copy_tiles(&self.v), size: self.size, zero: self.zero }
    }

    /// The four unit moves, in the fixed enumeration order.
    pub fn dirs() -> (r: [Complex<i32>; 4])
        ensures
            r@ == dirs_spec(),
    {
        let r = [Complex::new(0, 1), Complex::new(1, 0), Complex::new(0, -1), Complex::new(-1, 0)];
        assert(r@ =~= dirs_spec());
        r
    }

    fn index(&self, p: Complex<i32>) -> (r: usize)
        requires
            self@.wf(),
            self@.in_bounds(p.x as int, p.y as int),
        ensures
            r == self@.cell(p.x as int, p.y as int),
            r < self.v.len(),
    {
        proof {
            lemma_cell_in_range(self.size as int, p.x as int, p.y as int);
            assert(self.size * self.size <= MAX_SIDE * MAX_SIDE) by (nonlinear_arith)
                requires
                    1 <= self.size <= MAX_SIDE,
            ;
            assert(0 <= p.y * self.size) by (nonlinear_arith)
                requires
                    0 <= p.y,
                    0 <= self.size,
            ;
        }
        (p.y * self.size + p.x) as usize
    }

    /// The tile at cell `p`.
    pub fn get_cell_ref(&self, p: Complex<i32>) -> (r: &i32)
        requires
            self@.wf(),
            self@.in_bounds(p.x as int, p.y as int),
        ensures
            *r == self@.tiles[self@.cell(p.x as int, p.y as int)],
    {
        let i = self.index(p);
        &self.v[i]
    }

    /// Mutable access to the tile at cell `p`.
    pub fn get_cell_mut(&mut self, p: Complex<i32>) -> (r: &mut i32)
        requires
            old(self)@.wf(),
            old(self)@.in_bounds(p.x as int, p.y as int),
        ensures
            *r == old(self)@.tiles[old(self)@.cell(p.x as int, p.y as int)],
            final(self).v@ == old(self).v@.update(
                old(self)@.cell(p.x as int, p.y as int),
                *final(r),
            ),
            final(self).size == old(self).size,
            final(self).zero == old(self).zero,
    {
        let i = self.index(p);
        &mut self.v[i]
    }

    /// Slides the tile at `zero + d` into the empty cell.
    pub fn op(&mut self, d: Complex<i32>)
        requires
            old(self)@.wf(),
            old(self)@.legal(d.x as int, d.y as int),
        ensures
            final(self)@ == old(self)@.step(d.x as int, d.y as int),
            final(self)@.wf(),
    {
        proof {
            lemma_step_wf(self@, d.x as int, d.y as int);
        }
        let z = self.zero;
        let t = z + d;
        let iz = self.index(z);
        let it = self.index(t);
        let v1 = self.v[iz];
        let v2 = self.v[it];
        self.v.set(iz, v2);
        self.v.set(it, v1);
        self.zero = t;
    }

    /// Whether `zero + d` lies on the board.
    pub fn is_op_legal(&self, d: Complex<i32>) -> (r: bool)
        ensures
            r == self@.legal(d.x as int, d.y as int),
    {
        let x = self.zero.x as i64 + d.x as i64;
        let y = self.zero.y as i64 + d.y as i64;
        0 <= x && x < self.size as i64 && 0 <= y && y < self.size as i64
    }

    /// The solved board: tiles `1, 2, …, S²−1` along the clockwise inward
    /// spiral from the top-left corner, and the empty cell where it ends.
    pub fn create_solved_grid(size: i32) -> (g: Self)
        requires
            1 <= size <= MAX_SIDE,
        ensures
            g@ == solved_board(size as int),
            g@.wf(),
    {
        proof {
            lemma_solved_wf(size as int);
            assert(size * size <= MAX_SIDE * MAX_SIDE) by (nonlinear_arith)
                requires
                    1 <= size <= MAX_SIDE,
            ;
        }
        let s = size as i64;
        let n = s * s;
        let mut v: Vec<i32> = Vec::new();
        let mut i: i64 = 0;
        while i < n
            invariant
                s == size,
                n == s * s,
                1 <= s <= MAX_SIDE,
                n <= MAX_SIDE * MAX_SIDE,
                0 <= i <= n,
                v.len() == i,
                forall|j: int| 0 <= j < i ==> v@[j] == #[trigger] solved_board(s as int).tiles[j],
            decreases n - i,
        {
            proof {
                lemma_index_coords(s as int, i as int);
                lemma_snail_rank_range(s as int, (i % s) as int, (i / s) as int);
            }
            let t = Self::snail_tile_at(s, i % s, i / s);
            v.push(t as i32);
            i = i + 1;
        }
        assert(v@ =~= solved_board(s as int).tiles);
        Grid { v, size, zero: Complex::new((size - 1) / 2, size / 2) }
    }

    /// Tile of the solved board of side `s` at `(x, y)`.
    fn snail_tile_at(s: i64, x: i64, y: i64) -> (r: i64)
        requires
            1 <= s <= MAX_SIDE,
            0 <= x < s,
            0 <= y < s,
        ensures
            r == snail_tile(s as int, x as int, y as int),
    {
        let k1 = if x <= y {
            x
        } else {
            y
        };
        let k2 = if s - 1 - x <= s - 1 - y {
            s - 1 - x
        } else {
            s - 1 - y
        };
        let k = if k1 <= k2 {
            k1
        } else {
            k2
        };
        let m = s - 2 * k;
        let a = x - k;
        let b = y - k;
        let pos = if m == 1 {
            0
        } else if b == 0 {
            a
        } else if a == m - 1 {
            (m - 1) + b
        } else if b == m - 1 {
            3 * (m - 1) - a
        } else {
            4 * (m - 1) - b
        };
        proof {
            assert(m * m <= s * s) by (nonlinear_arith)
                requires
                    1 <= m <= s,
            ;
            assert(s * s <= MAX_SIDE * MAX_SIDE) by (nonlinear_arith)
                requires
                    1 <= s <= MAX_SIDE,
            ;
            lemma_snail_rank_range(s as int, x as int, y as int);
        }
        let rank = s * s - m * m + pos;
        if rank + 1 == s * s {
            0
        } else {
            rank + 1
        }
    }

    /// A solvable board made by `n` random legal moves from the solved board
    /// (none when the side is 1).
    pub fn create_random_grid(size: i32, n: i32) -> (g: Self)
        requires
            1 <= size <= MAX_SIDE,
        ensures
            g@.wf(),
            g@.distinct(),
            solvable(g@),
            exists|ops: Seq<Complex<i32>>|
                {
                    &&& ops.len() == (if size == 1 || n < 0 {
                        0
                    } else {
                        n as int
                    })
                    &&& forall|i: int| 0 <= i < ops.len() ==> dirs_spec().contains(#[trigger] ops[i])
                    &&& solved_board(size as int).replay_legal(ops)
                    &&& g@ == solved_board(size as int).replay(ops)
                },
    {
        let mut g = Self::create_solved_grid(size);
        proof {
            lemma_solved_is_permutation(size as int);
        }
        let ghost start = g@;
        let ghost mut ops: Seq<Complex<i32>> = seq![];
        proof {
            lemma_solved_solvable(size as int);
        }
        if size == 1 {
            assert(start.replay(ops) == start);
            return g;
        }
        let mut k: i32 = 0;
        while k < n
            invariant
                g@.wf(),
                g@.distinct(),
                2 <= size <= MAX_SIDE,
                g.size == size,
                0 <= k,
                n >= 0 ==> k <= n,
                n < 0 ==> k == 0,
                ops.len() == k,
                forall|i: int| 0 <= i < ops.len() ==> dirs_spec().contains(#[trigger] ops[i]),
                start.replay_legal(ops),
                g@ == start.replay(ops),
            decreases n - k,
        {
            let dirs = Self::dirs();
            let mut legal: Vec<Complex<i32>> = Vec::new();
            let mut j: usize = 0;
            while j < 4
                invariant
                    j <= 4,
                    dirs@ == dirs_spec(),
                    forall|i: int|
                        0 <= i < legal.len() ==> g@.legal(
                            (#[trigger] legal@[i]).x as int,
                            legal@[i].y as int,
                        ) && dirs_spec().contains(legal@[i]),
                    legal.len() == 0 ==> forall|i: int|
                        0 <= i < j ==> !g@.legal(
                            (#[trigger] dirs_spec()[i]).x as int,
                            dirs_spec()[i].y as int,
                        ),
                decreases 4 - j,
            {
                if g.is_op_legal(dirs[j]) {
                    legal.push(dirs[j]);
                }
                j = j + 1;
            }
            proof {
                // a side of at least 2 leaves room to the right or below, or else
                // to the left or above
                if legal.len() == 0 {
                    assert(!g@.legal(dirs_spec()[0].x as int, dirs_spec()[0].y as int));
                    assert(!g@.legal(dirs_spec()[1].x as int, dirs_spec()[1].y as int));
                    assert(!g@.legal(dirs_spec()[2].x as int, dirs_spec()[2].y as int));
                    assert(!g@.legal(dirs_spec()[3].x as int, dirs_spec()[3].y as int));
                    assert(false);
                }
            }
            let d = choose_move(&legal);
            proof {
                let i = choose|i: int| 0 <= i < legal.len() && legal@[i] == d;
                assert(g@.legal(legal@[i].x as int, legal@[i].y as int));
                lemma_step_distinct(g@, d.x as int, d.y as int);
                let old_ops = ops;
                ops = ops.push(d);
                assert(ops.drop_last() =~= old_ops);
                assert(ops.last() == d);
                assert forall|i: int| 0 <= i < ops.len() implies dirs_spec().contains(
                    #[trigger] ops[i],
                ) by {
                    if i < old_ops.len() {
                        assert(ops[i] == old_ops[i]);
                    }
                }
            }
            g.op(d);
            k = k + 1;
        }
        proof {
            lemma_replay_keeps_parity(start, ops);
        }
        g
    }
}

} // verus!
