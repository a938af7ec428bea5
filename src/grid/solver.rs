//! The two searches, A* and IDA*, and the `solve` entry point.

pub use crate::grid::heuristic::Heuristic;
pub use crate::grid::parity::{is_solvable, unroll};

use crate::complex::Complex;
use crate::grid::heuristic::{
    abs_int, h_total, lemma_consistent, lemma_h_le_manhattan, lemma_h_total_bound, lemma_manhattan_step,
    lemma_solved_manhattan_zero, Hcost,
};
use crate::grid::parity::{lemma_replay_keeps_parity, lemma_solved_solvable, solvable};
use crate::grid::table::{
    digits_below, entry_le, lemma_distinct_boards_bounded, non_negative, same_tiles, Entry, Interner,
    MinQueue,
};
use crate::grid::{
    copy_tiles, dirs_spec, lemma_replay_concat, lemma_replay_wf, lemma_solved_tiles,
    lemma_same_tiles_same_board, lemma_step_distinct, lemma_undo_ops, solved_board, undo_ops, Board, Grid, MAX_SIDE,
};
use vstd::arithmetic::power::pow;
use vstd::prelude::*;

verus! {

/// A node of the A* search: a board, its costs, the move that produced it,
/// and the node it was expanded from.
#[derive(Clone, Debug)]
pub struct State {
    grid: Grid,
    h_cost: i64,
    g_cost: usize,
    last_op: Option<Complex<i32>>,
    parent: usize,
}

/// Outcome of a search: the moves found, the search's counters, and the
/// board it started from.
pub struct Res {
    /// Nodes expanded.
    pub time_complexity: usize,
    /// Largest number of boards held at once (A*), or deepest path (IDA*).
    pub size_complexity: usize,
    pub sequence: Vec<Complex<i32>>,
    pub grid: Grid,
}

/// The search algorithm.
#[derive(Clone, Copy, Debug, PartialEq, Eq, Structural)]
pub enum Algo {
    Astar,
    IDAstar,
}

/// The board fails the parity test, or no search reached the solved board.
#[derive(Clone, Copy, Debug, PartialEq, Eq, Structural)]
pub struct UnsolvableError;

/// `ops` are unit moves, each legal where it is made, that take `b` to the
/// solved board.
pub open spec fn solves(b: Board, ops: Seq<Complex<i32>>) -> bool {
    &&& forall|i: int| 0 <= i < ops.len() ==> dirs_spec().contains(#[trigger] ops[i])
    &&& b.replay_legal(ops)
    &&& b.replay(ops) == solved_board(b.size)
}

/// `ops` are unit moves, each legal where it is made, from `b`.
pub open spec fn path_from(b: Board, ops: Seq<Complex<i32>>) -> bool {
    &&& forall|i: int| 0 <= i < ops.len() ==> dirs_spec().contains(#[trigger] ops[i])
    &&& b.replay_legal(ops)
}

/// Some sequence of unit moves takes `b` to the solved board.
pub open spec fn reachable(b: Board) -> bool {
    exists|ops: Seq<Complex<i32>>| #[trigger] solves(b, ops)
}

proof fn lemma_unit_move(d: Complex<i32>)
    requires
        dirs_spec().contains(d),
    ensures
        abs_int(d.x as int) + abs_int(d.y as int) == 1,
        -1 <= d.x <= 1,
        -1 <= d.y <= 1,
{
    let i = choose|i: int| 0 <= i < 4 && dirs_spec()[i] == d;
}

/// Entries of `s` in the opposite order.
pub open spec fn reversed<A>(s: Seq<A>) -> Seq<A> {
    Seq::new(s.len(), |k: int| s[s.len() - 1 - k])
}

/// Number of `true` entries.
pub open spec fn count_true(s: Seq<bool>) -> int
    decreases s.len(),
{
    if s.len() == 0 {
        0
    } else {
        count_true(s.drop_last()) + if s.last() {
            1int
        } else {
            0
        }
    }
}

proof fn lemma_count_true_bound(s: Seq<bool>)
    ensures
        0 <= count_true(s) <= s.len(),
    decreases s.len(),
{
    if s.len() > 0 {
        lemma_count_true_bound(s.drop_last());
    }
}

proof fn lemma_count_true_push_false(s: Seq<bool>)
    ensures
        count_true(s.push(false)) == count_true(s),
{
    assert(s.push(false).drop_last() =~= s);
}

proof fn lemma_count_true_set(s: Seq<bool>, i: int)
    requires
        0 <= i < s.len(),
        !s[i],
    ensures
        count_true(s.update(i, true)) == count_true(s) + 1,
    decreases s.len(),
{
    let t = s.update(i, true);
    if i == s.len() - 1 {
        assert(t.drop_last() =~= s.drop_last());
    } else {
        assert(t.drop_last() =~= s.drop_last().update(i, true));
        lemma_count_true_set(s.drop_last(), i);
    }
}

/// The moves that lead from the root to node `i`, following parents.
spec fn path_to(nodes: Seq<State>, i: int) -> Seq<Complex<i32>>
    decreases i,
{
    if i <= 0 || i >= nodes.len() || nodes[i].parent >= i {
        seq![]
    } else {
        path_to(nodes, nodes[i].parent as int).push(nodes[i].last_op->0)
    }
}

/// Node `i` is a well-formed board of side `size` with its heuristic cost,
/// and (but for the root) was made by one unit move from an earlier node.
spec fn node_ok(nodes: Seq<State>, i: int, size: i32, h: Heuristic) -> bool {
    let s = nodes[i];
    &&& s.grid@.wf()
    &&& s.grid@.distinct()
    &&& s.grid.size == size
    &&& s.h_cost == h_total(h, s.grid@)
    &&& s.g_cost <= i
    &&& i > 0 ==> {
        &&& s.parent < i
        &&& s.last_op is Some
        &&& dirs_spec().contains(s.last_op->0)
        &&& nodes[s.parent as int].grid@.legal(s.last_op->0.x as int, s.last_op->0.y as int)
        &&& s.grid@ == nodes[s.parent as int].grid@.step(
            s.last_op->0.x as int,
            s.last_op->0.y as int,
        )
        &&& s.g_cost == nodes[s.parent as int].g_cost + 1
    }
}

proof fn lemma_path_to(nodes: Seq<State>, i: int, size: i32, h: Heuristic)
    requires
        0 <= i < nodes.len(),
        forall|j: int| 0 <= j < nodes.len() ==> node_ok(nodes, j, size, h),
        nodes[0].g_cost == 0,
    ensures
        path_to(nodes, i).len() == nodes[i].g_cost,
        forall|k: int|
            0 <= k < path_to(nodes, i).len() ==> dirs_spec().contains(#[trigger] path_to(nodes, i)[k]),
        nodes[0].grid@.replay_legal(path_to(nodes, i)),
        nodes[0].grid@.replay(path_to(nodes, i)) == nodes[i].grid@,
    decreases i,
{
    assert(node_ok(nodes, i, size, h));
    if i > 0 {
        let p = nodes[i].parent as int;
        lemma_path_to(nodes, p, size, h);
        let ops = path_to(nodes, i);
        assert(ops.drop_last() =~= path_to(nodes, p));
        assert forall|k: int| 0 <= k < ops.len() implies dirs_spec().contains(#[trigger] ops[k]) by {
            if k < ops.len() - 1 {
                assert(ops[k] == path_to(nodes, p)[k]);
            }
        }
    }
}

proof fn lemma_path_to_push(nodes: Seq<State>, x: State, i: int)
    requires
        0 <= i < nodes.len(),
    ensures
        path_to(nodes.push(x), i) == path_to(nodes, i),
    decreases i,
{
    if i > 0 && nodes[i].parent < i {
        lemma_path_to_push(nodes, x, nodes[i].parent as int);
    }
}

/// The bookkeeping of an A* search from `start`.
struct Search {
    /// Every node ever queued; a node's id is its index.
    nodes: Vec<State>,
    /// Key id of each node's board.
    node_keys: Vec<usize>,
    keys: Interner,
    /// Per key id: the best cost of a queued node with that board.
    open_g: Vec<Option<usize>>,
    /// Per key id: whether the board was expanded.
    closed: Vec<bool>,
    open_set: MinQueue,
    time_complexity: usize,
    size_complexity: usize,
    n_closed: usize,
    /// Per node id: whether the node's neighbours were queued.
    expanded: Ghost<Seq<bool>>,
}

impl Search {
    spec fn inv(&self, start: Board, size: i32, h: Heuristic) -> bool {
        &&& 1 <= size <= MAX_SIDE
        &&& self.nodes.len() >= 1
        &&& self.nodes@[0].grid@ == start
        &&& forall|j: int| 0 <= j < self.nodes.len() ==> node_ok(self.nodes@, j, size, h)
        &&& self.node_keys.len() == self.nodes.len()
        &&& forall|j: int|
            0 <= j < self.nodes.len() ==> {
                &&& #[trigger] self.node_keys@[j] < self.keys.view().len()
                &&& self.keys.view()[self.node_keys@[j] as int] == self.nodes@[j].grid.v@
            }
        &&& self.keys.wf()
        &&& forall|k: int|
            0 <= k < self.keys.view().len() ==> (#[trigger] self.keys.view()[k]).len() == size
                * size && digits_below(self.keys.view()[k], size * size)
        &&& self.open_g.len() == self.keys.view().len()
        &&& self.closed.len() == self.keys.view().len()
        &&& self.open_set.wf()
        &&& forall|k: int|
            0 <= k < self.open_set.view().len() ==> (#[trigger] self.open_set.view()[k]).2
                < self.nodes.len()
        &&& self.time_complexity + self.open_set.view().len() == self.nodes.len()
        &&& self.n_closed <= self.time_complexity
        &&& self.n_closed == count_true(self.closed@)
        &&& self.nodes@[0].g_cost == 0
        &&& forall|n: int| 0 <= n < self.nodes.len() ==> (#[trigger] self.nodes@[n]).g_cost <= self.time_complexity
    }

    /// Some interned key holds the tiles `t` and is closed, or queued with a
    /// cost of at most `bound`.
    spec fn within(&self, t: Seq<i32>, bound: int) -> bool {
        exists|k: int|
            0 <= k < self.keys.view().len() && #[trigger] self.keys.view()[k] == t && (
            self.closed@[k] || (self.open_g@[k] is Some && self.open_g@[k]->0 <= bound))
    }

    /// Some closed key holds the tiles `t`.
    spec fn closed_tiles(&self, t: Seq<i32>) -> bool {
        exists|k: int|
            0 <= k < self.keys.view().len() && #[trigger] self.keys.view()[k] == t && self.closed@[k]
    }

    /// The bookkeeping behind shortest paths: queue entries carry their
    /// node's f- and h-costs, each neighbour of an expanded node is closed or
    /// queued with a cost at most one above it, each cost in `open_g` is the
    /// cost of a queued node, the start is closed or queued at cost zero, and
    /// no path from the start reaches an expanded node's board in fewer moves
    /// than its cost.
    spec fn optimal_inv(&self, start: Board) -> bool {
        &&& forall|k: int|
            0 <= k < self.open_set.view().len() ==> {
                let x = #[trigger] self.open_set.view()[k];
                &&& x.0 == self.nodes@[x.2 as int].g_cost + self.nodes@[x.2 as int].h_cost
                &&& x.1 == self.nodes@[x.2 as int].h_cost
            }
        &&& forall|n: int|
            0 <= n < self.nodes.len() && #[trigger] self.expanded@[n] ==> forall|j: int|
                0 <= j < 4 && self.nodes@[n].grid@.legal(
                    (#[trigger] dirs_spec()[j]).x as int,
                    dirs_spec()[j].y as int,
                ) ==> self.within(
                    self.nodes@[n].grid@.step(dirs_spec()[j].x as int, dirs_spec()[j].y as int).tiles,
                    self.nodes@[n].g_cost + 1,
                )
        &&& forall|k: int|
            0 <= k < self.open_g.len() && #[trigger] self.open_g@[k] is Some ==> exists|e: int|
                0 <= e < self.open_set.view().len() && self.node_keys@[(
                #[trigger] self.open_set.view()[e]).2 as int] == k && self.nodes@[self.open_set.view()[
                e].2 as int].g_cost == self.open_g@[k]->0
        &&& self.closed@[self.node_keys@[0] as int] || self.open_g@[self.node_keys@[0] as int] == Some(
            0usize,
        )
        &&& forall|n: int, ops: Seq<Complex<i32>>|
            0 <= n < self.nodes.len() && #[trigger] self.expanded@[n] && #[trigger] path_from(start, ops)
                && start.replay(ops).tiles == self.nodes@[n].grid.v@ ==> self.nodes@[n].g_cost
                <= ops.len()
    }

    /// Some interned key holds the tiles `t` and is closed or queued.
    spec fn known(&self, t: Seq<i32>) -> bool {
        exists|k: int|
            0 <= k < self.keys.view().len() && #[trigger] self.keys.view()[k] == t && (
            self.closed@[k] || self.open_g@[k] is Some)
    }

    /// Nothing reachable is lost: each neighbour of an expanded node is
    /// known, each closed key but `pending` has an expanded node, each cost in
    /// `open_g` has a queued entry, the start is known, and the goal `goal`
    /// was never closed.
    spec fn complete(&self, start: Board, goal: Seq<i32>, pending: int) -> bool {
        &&& self.expanded@.len() == self.nodes.len()
        &&& forall|n: int|
            0 <= n < self.nodes.len() && #[trigger] self.expanded@[n] ==> {
                &&& self.closed@[self.node_keys@[n] as int]
                &&& forall|j: int|
                    0 <= j < 4 && self.nodes@[n].grid@.legal(
                        (#[trigger] dirs_spec()[j]).x as int,
                        dirs_spec()[j].y as int,
                    ) ==> self.known(
                        self.nodes@[n].grid@.step(dirs_spec()[j].x as int, dirs_spec()[j].y as int).tiles,
                    )
            }
        &&& forall|k: int|
            0 <= k < self.closed.len() && #[trigger] self.closed@[k] && k != pending ==> exists|n: int|
                0 <= n < self.nodes.len() && self.expanded@[n] && #[trigger] self.node_keys@[n] == k
        &&& forall|k: int|
            0 <= k < self.open_g.len() && #[trigger] self.open_g@[k] is Some ==> exists|e: int|
                0 <= e < self.open_set.view().len() && self.node_keys@[(
                #[trigger] self.open_set.view()[e]).2 as int] == k
        &&& self.known(start.tiles)
        &&& forall|k: int| 0 <= k < self.closed.len() && #[trigger] self.closed@[k] ==> self.keys.view()[k] != goal
    }

    /// Queues the board that move `d` makes from node `sid`, unless that board
    /// was expanded or is queued with a cost no higher.
    fn add_child(
        &mut self,
        hc: &Hcost,
        sid: usize,
        d: Complex<i32>,
        Ghost(start): Ghost<Board>,
        Ghost(size): Ghost<i32>,
        Ghost(goal): Ghost<Seq<i32>>,
        Ghost(pending): Ghost<int>,
    )
        requires
            old(self).inv(start, size, hc.h),
            old(self).complete(start, goal, pending),
            old(self).optimal_inv(start),
            hc.wf(),
            hc.size == size,
            sid < old(self).nodes.len(),
            old(self).nodes@[sid as int].g_cost < old(self).time_complexity,
            dirs_spec().contains(d),
            old(self).nodes@[sid as int].grid@.legal(d.x as int, d.y as int),
        ensures
            final(self).inv(start, size, hc.h),
            final(self).complete(start, goal, pending),
            final(self).optimal_inv(start),
            final(self).known(
                old(self).nodes@[sid as int].grid@.step(d.x as int, d.y as int).tiles,
            ),
            final(self).within(
                old(self).nodes@[sid as int].grid@.step(d.x as int, d.y as int).tiles,
                old(self).nodes@[sid as int].g_cost + 1,
            ),
            forall|t: Seq<i32>, b: int| #[trigger] old(self).within(t, b) ==> final(self).within(t, b),
            forall|t: Seq<i32>| #[trigger] old(self).known(t) ==> final(self).known(t),
            forall|n: int|
                0 <= n < old(self).nodes.len() ==> #[trigger] final(self).nodes@[n]
                    == old(self).nodes@[n] && final(self).expanded@[n] == old(self).expanded@[n],
            final(self).n_closed == old(self).n_closed,
            final(self).time_complexity == old(self).time_complexity,
            final(self).closed@ == old(self).closed@.take(old(self).closed.len() as int) + (
            final(self).closed@.skip(old(self).closed.len() as int)),
            final(self).closed.len() >= old(self).closed.len(),
            final(self).nodes.len() >= old(self).nodes.len(),
            forall|k: int|
                0 <= k < old(self).nodes.len() ==> #[trigger] final(self).node_keys@[k]
                    == old(self).node_keys@[k],
            forall|k: int|
                old(self).closed.len() <= k < final(self).closed.len() ==> !(
                #[trigger] final(self).closed@[k]),
    {
        assert(node_ok(self.nodes@, sid as int, size, hc.h));
        proof {
            lemma_unit_move(d);
        }
        let ghost old_nodes = self.nodes@;
        let mut child = self.nodes[sid].grid.duplicate();
        child.op(d);
        proof {
            lemma_step_distinct(old_nodes[sid as int].grid@, d.x as int, d.y as int);
        }
        let found = self.keys.lookup(&child.v);
        if let Some(cid) = found {
            if self.closed[cid] {
                assert(self.keys.view()[cid as int] == child.v@);
                assert(self.within(child.v@, self.nodes@[sid as int].g_cost + 1));
                return;
            }
        }
        let cg = self.nodes[sid].g_cost + 1;
        let ch = hc.smart_hcost(&self.nodes[sid].grid, self.nodes[sid].h_cost, d);
        if let Some(cid) = found {
            if let Some(og) = self.open_g[cid] {
                if og <= cg {
                    assert(self.keys.view()[cid as int] == child.v@);
                    assert(self.within(child.v@, self.nodes@[sid as int].g_cost + 1));
                    return;
                }
            }
        }
        let cid = match found {
            Some(c) => c,
            None => {
                let c = self.keys.insert(copy_tiles(&child.v));
                self.open_g.push(None);
                let ghost before = self.closed@;
                self.closed.push(false);
                proof {
                    lemma_count_true_push_false(before);
                }
                c
            },
        };
        self.open_g.set(cid, Some(cg));
        let nid = self.nodes.len();
        proof {
            lemma_h_total_bound(hc.h, child@);
        }
        let f = (cg as u128) + (ch as u128);
        self.nodes.push(State { grid: child, h_cost: ch, g_cost: cg, last_op: Some(d), parent: sid });
        self.node_keys.push(cid);
        self.expanded = Ghost(self.expanded@.push(false));
        self.open_set.push((f, ch, nid));
        proof {
            assert(self.keys.view()[cid as int] == child.v@);
            assert(self.open_g@[cid as int] is Some);
            // the cost stored for the child's board only went down
            assert(old(self).open_g@.len() <= cid || old(self).open_g@[cid as int] is None || old(
                self,
            ).open_g@[cid as int]->0 > cg);
            assert forall|t: Seq<i32>, b: int| #[trigger] old(self).within(t, b) implies self.within(t, b) by {
                let k = choose|k: int|
                    0 <= k < old(self).keys.view().len() && #[trigger] old(self).keys.view()[k] == t && (
                    old(self).closed@[k] || (old(self).open_g@[k] is Some && old(self).open_g@[k]->0 <= b));
                assert(self.keys.view()[k] == t);
                if k != cid as int {
                    assert(self.open_g@[k] == old(self).open_g@[k]);
                    assert(self.closed@[k] == old(self).closed@[k]);
                }
            }
            assert(self.within(child.v@, cg as int));
            assert forall|k: int| 0 <= k < self.open_set.view().len() implies {
                let x = #[trigger] self.open_set.view()[k];
                &&& x.0 == self.nodes@[x.2 as int].g_cost + self.nodes@[x.2 as int].h_cost
                &&& x.1 == self.nodes@[x.2 as int].h_cost
            } by {
                let x = self.open_set.view()[k];
                if x != (f, ch, nid) {
                    let w = choose|w: int| 0 <= w < old(self).open_set.view().len() && old(self).open_set.view()[w] == x;
                    assert(self.nodes@[x.2 as int] == old_nodes[x.2 as int]);
                }
            }
            assert forall|n: int|
                0 <= n < self.nodes.len() && #[trigger] self.expanded@[n] implies forall|j: int|
                0 <= j < 4 && self.nodes@[n].grid@.legal(
                    (#[trigger] dirs_spec()[j]).x as int,
                    dirs_spec()[j].y as int,
                ) ==> self.within(
                    self.nodes@[n].grid@.step(dirs_spec()[j].x as int, dirs_spec()[j].y as int).tiles,
                    self.nodes@[n].g_cost + 1,
                ) by {
                assert(n < nid);
                assert(old(self).expanded@[n]);
                assert(self.nodes@[n] == old_nodes[n]);
                assert forall|j: int|
                    0 <= j < 4 && self.nodes@[n].grid@.legal(
                        (#[trigger] dirs_spec()[j]).x as int,
                        dirs_spec()[j].y as int,
                    ) implies self.within(
                        self.nodes@[n].grid@.step(dirs_spec()[j].x as int, dirs_spec()[j].y as int).tiles,
                        self.nodes@[n].g_cost + 1,
                    ) by {
                    assert(old(self).within(
                        old_nodes[n].grid@.step(dirs_spec()[j].x as int, dirs_spec()[j].y as int).tiles,
                        old_nodes[n].g_cost + 1,
                    ));
                }
            }
            assert forall|k: int|
                0 <= k < self.open_g.len() && #[trigger] self.open_g@[k] is Some implies exists|e: int|
                0 <= e < self.open_set.view().len() && self.node_keys@[(
                #[trigger] self.open_set.view()[e]).2 as int] == k && self.nodes@[self.open_set.view()[
                e].2 as int].g_cost == self.open_g@[k]->0 by {
                if k == cid as int {
                    assert(self.open_set.view().contains((f, ch, nid)));
                    let e = choose|e: int| 0 <= e < self.open_set.view().len() && self.open_set.view()[e] == (f, ch, nid);
                    assert(self.node_keys@[nid as int] == cid);
                } else {
                    assert(self.open_g@[k] == old(self).open_g@[k]);
                    let e = choose|e: int|
                        0 <= e < old(self).open_set.view().len() && old(self).node_keys@[(
                        #[trigger] old(self).open_set.view()[e]).2 as int] == k && old(self).nodes@[old(self).open_set.view()[
                        e].2 as int].g_cost == old(self).open_g@[k]->0;
                    let x = old(self).open_set.view()[e];
                    assert(old(self).open_set.view().contains(x));
                    assert(self.open_set.view().contains(x));
                    let e2 = choose|e2: int| 0 <= e2 < self.open_set.view().len() && self.open_set.view()[e2] == x;
                    assert(self.node_keys@[x.2 as int] == old(self).node_keys@[x.2 as int]);
                    assert(self.nodes@[x.2 as int] == old_nodes[x.2 as int]);
                }
            }
            assert(self.node_keys@[0] == old(self).node_keys@[0]);
            assert forall|n: int, ops: Seq<Complex<i32>>|
                0 <= n < self.nodes.len() && #[trigger] self.expanded@[n] && #[trigger] path_from(start, ops)
                    && start.replay(ops).tiles == self.nodes@[n].grid.v@ implies self.nodes@[n].g_cost
                    <= ops.len() by {
                assert(n < nid);
                assert(old(self).expanded@[n]);
                assert(self.nodes@[n] == old_nodes[n]);
            }
            assert forall|t: Seq<i32>| #[trigger] old(self).known(t) implies self.known(t) by {
                let k = choose|k: int|
                    0 <= k < old(self).keys.view().len() && #[trigger] old(self).keys.view()[k] == t && (
                    old(self).closed@[k] || old(self).open_g@[k] is Some);
                assert(self.keys.view()[k] == t);
                if k == cid as int {
                } else {
                    assert(self.open_g@[k] == old(self).open_g@[k]);
                    assert(self.closed@[k] == old(self).closed@[k]);
                }
            }
            assert forall|n: int| 0 <= n < self.nodes.len() && #[trigger] self.expanded@[n] implies {
                &&& self.closed@[self.node_keys@[n] as int]
                &&& forall|j: int|
                    0 <= j < 4 && self.nodes@[n].grid@.legal(
                        (#[trigger] dirs_spec()[j]).x as int,
                        dirs_spec()[j].y as int,
                    ) ==> self.known(
                        self.nodes@[n].grid@.step(dirs_spec()[j].x as int, dirs_spec()[j].y as int).tiles,
                    )
            } by {
                assert(n < nid);
                assert(old(self).expanded@[n]);
                assert(self.nodes@[n] == old_nodes[n]);
                assert(self.node_keys@[n] == old(self).node_keys@[n]);
                assert forall|j: int|
                    0 <= j < 4 && self.nodes@[n].grid@.legal(
                        (#[trigger] dirs_spec()[j]).x as int,
                        dirs_spec()[j].y as int,
                    ) implies self.known(
                        self.nodes@[n].grid@.step(dirs_spec()[j].x as int, dirs_spec()[j].y as int).tiles,
                    ) by {
                    assert(old(self).known(
                        old_nodes[n].grid@.step(dirs_spec()[j].x as int, dirs_spec()[j].y as int).tiles,
                    ));
                }
            }
            assert forall|k: int|
                0 <= k < self.closed.len() && #[trigger] self.closed@[k] && k != pending implies exists|n: int|
                0 <= n < self.nodes.len() && self.expanded@[n] && #[trigger] self.node_keys@[n] == k by {
                assert(k < old(self).closed.len());
                assert(old(self).closed@[k]);
                let n = choose|n: int|
                    0 <= n < old(self).nodes.len() && old(self).expanded@[n] && #[trigger] old(self).node_keys@[n] == k;
                assert(self.expanded@[n] && self.node_keys@[n] == k);
            }
            assert forall|k: int|
                0 <= k < self.open_g.len() && #[trigger] self.open_g@[k] is Some implies exists|e: int|
                0 <= e < self.open_set.view().len() && self.node_keys@[(
                #[trigger] self.open_set.view()[e]).2 as int] == k by {
                if k == cid as int {
                    assert(self.open_set.view().contains((f, ch, nid)));
                    let e = choose|e: int| 0 <= e < self.open_set.view().len() && self.open_set.view()[e] == (f, ch, nid);
                    assert(self.node_keys@[nid as int] == cid);
                } else {
                    assert(self.open_g@[k] == old(self).open_g@[k]);
                    let e = choose|e: int|
                        0 <= e < old(self).open_set.view().len() && old(self).node_keys@[(
                        #[trigger] old(self).open_set.view()[e]).2 as int] == k;
                    let x = old(self).open_set.view()[e];
                    assert(old(self).open_set.view().contains(x));
                    assert(self.open_set.view().contains(x));
                    let e2 = choose|e2: int| 0 <= e2 < self.open_set.view().len() && self.open_set.view()[e2] == x;
                    assert(self.node_keys@[x.2 as int] == old(self).node_keys@[x.2 as int]);
                }
            }
            assert(old(self).known(start.tiles));
            assert forall|k: int| 0 <= k < self.closed.len() && #[trigger] self.closed@[k] implies self.keys.view()[k]
                != goal by {
                assert(k < old(self).closed.len());
                assert(old(self).closed@[k]);
                assert(self.keys.view()[k] == old(self).keys.view()[k]);
            }
        }
        proof {
            assert forall|j: int| 0 <= j < self.nodes.len() implies node_ok(self.nodes@, j, size, hc.h) by {
                if j < nid {
                    assert(self.nodes@[j] == old_nodes[j]);
                    assert(node_ok(old_nodes, j, size, hc.h));
                    if j > 0 {
                        assert(self.nodes@[self.nodes@[j].parent as int] == old_nodes[old_nodes[j].parent as int]);
                    }
                } else {
                    assert(self.nodes@[sid as int] == old_nodes[sid as int]);
                }
            }
            assert forall|j: int| 0 <= j < self.nodes.len() implies {
                &&& #[trigger] self.node_keys@[j] < self.keys.view().len()
                &&& self.keys.view()[self.node_keys@[j] as int] == self.nodes@[j].grid.v@
            } by {
                if j < nid {
                    assert(self.nodes@[j] == old_nodes[j]);
                }
            }
            assert forall|k: int| 0 <= k < self.keys.view().len() implies (#[trigger] self.keys.view()[k]).len()
                == size * size && digits_below(self.keys.view()[k], size * size) by {
                if k == self.keys.view().len() - 1 && found is None {
                    assert(self.keys.view()[k] == child.v@);
                }
            }
            assert forall|k: int| 0 <= k < self.open_set.view().len() implies (#[trigger] self.open_set.view()[k]).2
                < self.nodes.len() by {
                let e = self.open_set.view()[k];
                if e != (f, ch, nid) {
                    let w = choose|w: int| 0 <= w < old(self).open_set.view().len() && old(self).open_set.view()[w] == e;
                }
            }
        }
        assert(self.closed@ =~= old(self).closed@.take(old(self).closed.len() as int) + self.closed@.skip(
            old(self).closed.len() as int,
        ));
    }
}



/// Best-first search from `grid` in order of f = g + h, then of h: returns
/// a shortest sequence of moves from `grid` to the solved board (every
/// heuristic here is consistent), or `None` when every reachable
/// board was expanded without reaching it (then no sequence of moves
/// reaches it).
fn astar(grid: &Grid, h: Heuristic) -> (r: Option<Res>)
    requires
        grid@.wf(),
        grid@.distinct(),
    ensures
        r matches Some(res) ==> solves(grid@, res.sequence@) && res.grid@ == grid@,
        r is None ==> forall|ops: Seq<Complex<i32>>| !#[trigger] solves(grid@, ops),
        r matches Some(res) ==> forall|ops: Seq<Complex<i32>>|
            #[trigger] solves(grid@, ops) ==> res.sequence.len() <= ops.len(),
        r matches Some(res) ==> res.time_complexity >= res.sequence.len() + 1,
        r matches Some(res) ==> forall|i: int, k: int|
            0 <= i < k <= res.sequence.len() ==> #[trigger] grid@.replay(res.sequence@.take(i)).tiles
                != #[trigger] grid@.replay(res.sequence@.take(k)).tiles,
{
    let size = grid.size;
    let ghost start = grid@;
    let ghost nn = (size * size) as nat;
    let hc = Hcost::new(size, h);
    let target = Grid::create_solved_grid(size);
    let h0 = hc.hcost(grid);
    proof {
        lemma_h_total_bound(h, grid@);
    }
    let mut st = Search {
        nodes: Vec::new(),
        node_keys: Vec::new(),
        keys: Interner::new(),
        open_g: Vec::new(),
        closed: Vec::new(),
        open_set: MinQueue::new(),
        time_complexity: 0,
        size_complexity: 0,
        n_closed: 0,
        expanded: Ghost(Seq::empty()),
    };
    st.nodes.push(State { grid: grid.duplicate(), h_cost: h0, g_cost: 0, last_op: None, parent: 0 });
    let k0 = st.keys.insert(copy_tiles(&grid.v));
    st.node_keys.push(k0);
    st.expanded = Ghost(st.expanded@.push(false));
    st.open_g.push(Some(0));
    st.closed.push(false);
    st.open_set.push((h0 as u128, h0, 0));
    proof {
        assert(st.closed@.drop_last() =~= Seq::<bool>::empty());
        assert(node_ok(st.nodes@, 0, size, h));
        assert(nn >= 1) by (nonlinear_arith)
            requires
                nn == size * size,
                size >= 1,
        ;
        vstd::arithmetic::power::lemma_pow_positive(nn as int, nn);
        assert(st.keys.view()[0] == grid.v@);
        assert(digits_below(st.keys.view()[0], size * size));
        assert forall|k: int| 0 <= k < st.open_set.view().len() implies (#[trigger] st.open_set.view()[k]).2
            < st.nodes.len() by {
            assert(st.open_set.view()[k] == (h0 as u128, h0, 0usize));
        }
        assert(count_true(st.closed@) == count_true(st.closed@.drop_last()));
        assert(st.keys.view()[0] == start.tiles);
        assert(st.open_set.view().contains((h0 as u128, h0, 0usize)));
        assert(st.complete(start, target@.tiles, -1));
        assert(st.open_set.view()[0] == (h0 as u128, h0, 0usize));
        assert(st.optimal_inv(start));
    }
    loop
        invariant
            st.inv(start, size, h),
            start == grid@,
            size == grid.size,
            nn == size * size,
            hc.wf(),
            hc.h == h,
            hc.size == size,
            target@ == solved_board(size as int),
            nn >= 1,
            st.n_closed <= pow(nn as int, nn),
            st.complete(start, target@.tiles, -1),
            st.optimal_inv(start),
        decreases pow(nn as int, nn) - st.n_closed, st.open_set.view().len(),
    {
        let ghost before_pop = st;
        let e = match st.open_set.pop() {
            None => {
                proof {
                    st.lemma_exhausted(start, target@.tiles, size, h);
                }
                return None;
            },
            Some(e) => e,
        };
        let sid = e.2;
        let skey = st.node_keys[sid];
        proof {
            assert(before_pop.open_set.view().contains(e));
            let w = choose|w: int| 0 <= w < before_pop.open_set.view().len() && before_pop.open_set.view()[w] == e;
            assert(sid < st.nodes.len());
        }
        st.open_g.set(skey, None);
        st.time_complexity = st.time_complexity + 1;
        let footprint = st.open_set.len() + st.n_closed;
        if footprint > st.size_complexity {
            st.size_complexity = footprint;
        }
        if st.closed[skey] {
            proof {
                assert(st.closed@ =~= before_pop.closed@.update(skey as int, true));
                lemma_pop_step(before_pop, st, e, start, target@.tiles, -1);
            }
            continue;
        }
        let ghost pre = st.closed@;
        st.closed.set(skey, true);
        proof {
            lemma_count_true_set(pre, skey as int);
            lemma_count_true_bound(st.closed@);
            assert forall|k: int| 0 <= k < st.keys.view().len() implies non_negative(
                #[trigger] st.keys.view()[k],
            ) by {
                assert(digits_below(st.keys.view()[k], size * size));
            }
            lemma_keys_bounded(&st.keys, nn);
        }
        st.n_closed = st.n_closed + 1;
        if same_tiles(&st.nodes[sid].grid.v, &target.v) {
            let sequence = st.path(sid, Ghost(start), Ghost(size), Ghost(h));
            proof {
                assert(node_ok(st.nodes@, sid as int, size, h));
                lemma_solved_tiles(st.nodes@[sid as int].grid@);
                assert(before_pop.nodes@[sid as int] == st.nodes@[sid as int]);
                assert forall|ops: Seq<Complex<i32>>| #[trigger] solves(grid@, ops) implies sequence.len()
                    <= ops.len() by {
                    lemma_pop_optimal(before_pop, e, start, size, h, target@.tiles, ops);
                }
                assert(node_ok(st.nodes@, 0, size, h));
                lemma_shortest_is_simple(grid@, sequence@);
            }
            return Some(
                Res {
                    time_complexity: st.time_complexity,
                    size_complexity: st.size_complexity,
                    sequence,
                    grid: grid.duplicate(),
                },
            );
        }
        proof {
            assert(st.keys.view()[skey as int] == st.nodes@[sid as int].grid.v@);
            lemma_pop_step(before_pop, st, e, start, target@.tiles, skey as int);
        }
        let ghost n_closed_now = st.n_closed;
        let dirs = Grid::dirs();
        let mut j: usize = 0;
        while j < 4
            invariant
                st.inv(start, size, h),
                st.n_closed == n_closed_now,
                hc.wf(),
                hc.h == h,
                hc.size == size,
                dirs@ == dirs_spec(),
                target@ == solved_board(size as int),
                sid < st.nodes.len(),
                skey == st.node_keys@[sid as int],
                st.closed@[skey as int],
                st.complete(start, target@.tiles, skey as int),
                st.optimal_inv(start),
                st.nodes@[sid as int].g_cost < st.time_complexity,
                st.nodes.len() >= before_pop.nodes.len(),
                forall|n: int| 0 <= n < before_pop.nodes.len() ==> #[trigger] st.nodes@[n] == before_pop.nodes@[n],
                forall|i: int|
                    0 <= i < j && st.nodes@[sid as int].grid@.legal(
                        (#[trigger] dirs_spec()[i]).x as int,
                        dirs_spec()[i].y as int,
                    ) ==> st.within(
                        st.nodes@[sid as int].grid@.step(dirs_spec()[i].x as int, dirs_spec()[i].y as int).tiles,
                        st.nodes@[sid as int].g_cost + 1,
                    ),
                forall|i: int|
                    0 <= i < j && st.nodes@[sid as int].grid@.legal(
                        (#[trigger] dirs_spec()[i]).x as int,
                        dirs_spec()[i].y as int,
                    ) ==> st.known(
                        st.nodes@[sid as int].grid@.step(dirs_spec()[i].x as int, dirs_spec()[i].y as int).tiles,
                    ),
                st.n_closed <= st.time_complexity,
                st.n_closed <= pow(nn as int, nn),
                nn == size * size,
                nn >= 1,
                j <= 4,
            decreases 4 - j,
        {
            let d = dirs[j];
            if st.nodes[sid].grid.is_op_legal(d) {
                let ghost pre = st;
                st.add_child(&hc, sid, d, Ghost(start), Ghost(size), Ghost(target@.tiles), Ghost(skey as int));
                proof {
                    assert(st.closed@[skey as int] == pre.closed@[skey as int]);
                    assert forall|i: int|
                        0 <= i < j + 1 && st.nodes@[sid as int].grid@.legal(
                            (#[trigger] dirs_spec()[i]).x as int,
                            dirs_spec()[i].y as int,
                        ) implies st.known(
                            st.nodes@[sid as int].grid@.step(dirs_spec()[i].x as int, dirs_spec()[i].y as int).tiles,
                        ) by {
                        if i < j {
                            assert(pre.known(
                                pre.nodes@[sid as int].grid@.step(dirs_spec()[i].x as int, dirs_spec()[i].y as int).tiles,
                            ));
                        }
                    }
                    assert forall|i: int|
                        0 <= i < j + 1 && st.nodes@[sid as int].grid@.legal(
                            (#[trigger] dirs_spec()[i]).x as int,
                            dirs_spec()[i].y as int,
                        ) implies st.within(
                            st.nodes@[sid as int].grid@.step(dirs_spec()[i].x as int, dirs_spec()[i].y as int).tiles,
                            st.nodes@[sid as int].g_cost + 1,
                        ) by {
                        if i < j {
                            assert(pre.within(
                                pre.nodes@[sid as int].grid@.step(dirs_spec()[i].x as int, dirs_spec()[i].y as int).tiles,
                                pre.nodes@[sid as int].g_cost + 1,
                            ));
                        }
                    }
                    assert forall|n: int| 0 <= n < before_pop.nodes.len() implies #[trigger] st.nodes@[n]
                        == before_pop.nodes@[n] by {
                        assert(st.nodes@[n] == pre.nodes@[n]);
                    }
                }
            }
            j = j + 1;
        }
        let ghost pre = st;
        st.expanded = Ghost(st.expanded@.update(sid as int, true));
        proof {
            lemma_mark_expanded(pre, st, before_pop, e, start, size, h, target@.tiles);
        }
    }
}

/// One pop of the queue keeps the completeness bookkeeping: the popped
/// board's key leaves `open_g` and is closed (now or before).
proof fn lemma_pop_step(before: Search, after: Search, e: Entry, start: Board, goal: Seq<i32>, pending: int)
    requires
        before.complete(start, goal, -1),
        before.node_keys.len() == before.nodes.len(),
        forall|n: int| 0 <= n < before.nodes.len() ==> #[trigger] before.node_keys@[n] < before.closed.len(),
        e.2 < before.nodes.len(),
        before.node_keys@[e.2 as int] < before.closed.len(),
        before.open_g.len() == before.closed.len(),
        before.closed.len() == before.keys.view().len(),
        before.open_set.view().contains(e),
        after.nodes@ == before.nodes@,
        after.node_keys@ == before.node_keys@,
        after.keys.view() == before.keys.view(),
        after.expanded@ == before.expanded@,
        forall|x: Entry|
            #[trigger] before.open_set.view().contains(x) && x != e ==> after.open_set.view().contains(x),
        after.open_g@ == before.open_g@.update(before.node_keys@[e.2 as int] as int, None),
        after.closed@ == before.closed@.update(before.node_keys@[e.2 as int] as int, true),
        pending == -1 ==> before.closed@[before.node_keys@[e.2 as int] as int],
        pending != -1 ==> pending == before.node_keys@[e.2 as int] && after.keys.view()[pending] != goal,
        before.optimal_inv(start),
        before.nodes.len() >= 1,
        forall|k: int|
            0 <= k < after.open_set.view().len() ==> before.open_set.view().contains(
                #[trigger] after.open_set.view()[k],
            ),
    ensures
        after.complete(start, goal, pending),
        after.optimal_inv(start),
{
    lemma_pop_step_optimal(before, after, e, start);
    let skey = before.node_keys@[e.2 as int] as int;
    assert forall|t: Seq<i32>| #[trigger] before.known(t) implies after.known(t) by {
        let k = choose|k: int|
            0 <= k < before.keys.view().len() && #[trigger] before.keys.view()[k] == t && (
            before.closed@[k] || before.open_g@[k] is Some);
        assert(after.keys.view()[k] == t);
        if k != skey {
            assert(after.closed@[k] == before.closed@[k]);
            assert(after.open_g@[k] == before.open_g@[k]);
        } else {
            assert(after.closed@[k]);
        }
    }
    assert forall|n: int| 0 <= n < after.nodes.len() && #[trigger] after.expanded@[n] implies {
        &&& after.closed@[after.node_keys@[n] as int]
        &&& forall|j: int|
            0 <= j < 4 && after.nodes@[n].grid@.legal(
                (#[trigger] dirs_spec()[j]).x as int,
                dirs_spec()[j].y as int,
            ) ==> after.known(
                after.nodes@[n].grid@.step(dirs_spec()[j].x as int, dirs_spec()[j].y as int).tiles,
            )
    } by {
        assert(before.expanded@[n]);
        assert forall|j: int|
            0 <= j < 4 && after.nodes@[n].grid@.legal(
                (#[trigger] dirs_spec()[j]).x as int,
                dirs_spec()[j].y as int,
            ) implies after.known(
                after.nodes@[n].grid@.step(dirs_spec()[j].x as int, dirs_spec()[j].y as int).tiles,
            ) by {
            assert(before.known(
                before.nodes@[n].grid@.step(dirs_spec()[j].x as int, dirs_spec()[j].y as int).tiles,
            ));
        }
    }
    assert forall|k: int|
        0 <= k < after.closed.len() && #[trigger] after.closed@[k] && k != pending implies exists|n: int|
        0 <= n < after.nodes.len() && after.expanded@[n] && #[trigger] after.node_keys@[n] == k by {
        assert(before.closed@[k]);
        let n = choose|n: int|
            0 <= n < before.nodes.len() && before.expanded@[n] && #[trigger] before.node_keys@[n] == k;
        assert(after.expanded@[n] && after.node_keys@[n] == k);
    }
    assert forall|k: int|
        0 <= k < after.open_g.len() && #[trigger] after.open_g@[k] is Some implies exists|i: int|
        0 <= i < after.open_set.view().len() && after.node_keys@[(
        #[trigger] after.open_set.view()[i]).2 as int] == k by {
        assert(k != skey);
        assert(before.open_g@[k] is Some);
        let i = choose|i: int|
            0 <= i < before.open_set.view().len() && before.node_keys@[(
            #[trigger] before.open_set.view()[i]).2 as int] == k;
        let x = before.open_set.view()[i];
        assert(before.open_set.view().contains(x));
        assert(x != e);
        assert(after.open_set.view().contains(x));
        let i2 = choose|i2: int| 0 <= i2 < after.open_set.view().len() && after.open_set.view()[i2] == x;
    }
    assert(before.known(start.tiles));
    assert forall|k: int| 0 <= k < after.closed.len() && #[trigger] after.closed@[k] implies after.keys.view()[k]
        != goal by {
        if k != skey || pending == -1 {
            assert(before.closed@[k]);
        }
    }
}

proof fn lemma_pop_step_optimal(before: Search, after: Search, e: Entry, start: Board)
    requires
        before.optimal_inv(start),
        before.nodes.len() >= 1,
        before.node_keys.len() == before.nodes.len(),
        forall|n: int| 0 <= n < before.nodes.len() ==> #[trigger] before.node_keys@[n] < before.closed.len(),
        e.2 < before.nodes.len(),
        before.open_g.len() == before.closed.len(),
        before.closed.len() == before.keys.view().len(),
        after.nodes@ == before.nodes@,
        after.node_keys@ == before.node_keys@,
        after.keys.view() == before.keys.view(),
        after.expanded@ == before.expanded@,
        forall|x: Entry|
            #[trigger] before.open_set.view().contains(x) && x != e ==> after.open_set.view().contains(x),
        forall|k: int|
            0 <= k < after.open_set.view().len() ==> before.open_set.view().contains(
                #[trigger] after.open_set.view()[k],
            ),
        after.open_g@ == before.open_g@.update(before.node_keys@[e.2 as int] as int, None),
        after.closed@ == before.closed@.update(before.node_keys@[e.2 as int] as int, true),
    ensures
        after.optimal_inv(start),
{
    let skey = before.node_keys@[e.2 as int] as int;
    assert forall|t: Seq<i32>, b: int| #[trigger] before.within(t, b) implies after.within(t, b) by {
        let k = choose|k: int|
            0 <= k < before.keys.view().len() && #[trigger] before.keys.view()[k] == t && (
            before.closed@[k] || (before.open_g@[k] is Some && before.open_g@[k]->0 <= b));
        assert(after.keys.view()[k] == t);
        if k != skey {
            assert(after.closed@[k] == before.closed@[k]);
            assert(after.open_g@[k] == before.open_g@[k]);
        } else {
            assert(after.closed@[k]);
        }
    }
    assert forall|k: int| 0 <= k < after.open_set.view().len() implies {
        let x = #[trigger] after.open_set.view()[k];
        &&& x.0 == after.nodes@[x.2 as int].g_cost + after.nodes@[x.2 as int].h_cost
        &&& x.1 == after.nodes@[x.2 as int].h_cost
    } by {
        let x = after.open_set.view()[k];
        assert(before.open_set.view().contains(x));
        let w = choose|w: int| 0 <= w < before.open_set.view().len() && before.open_set.view()[w] == x;
    }
    assert forall|n: int|
        0 <= n < after.nodes.len() && #[trigger] after.expanded@[n] implies forall|j: int|
        0 <= j < 4 && after.nodes@[n].grid@.legal(
            (#[trigger] dirs_spec()[j]).x as int,
            dirs_spec()[j].y as int,
        ) ==> after.within(
            after.nodes@[n].grid@.step(dirs_spec()[j].x as int, dirs_spec()[j].y as int).tiles,
            after.nodes@[n].g_cost + 1,
        ) by {
        assert forall|j: int|
            0 <= j < 4 && after.nodes@[n].grid@.legal(
                (#[trigger] dirs_spec()[j]).x as int,
                dirs_spec()[j].y as int,
            ) implies after.within(
                after.nodes@[n].grid@.step(dirs_spec()[j].x as int, dirs_spec()[j].y as int).tiles,
                after.nodes@[n].g_cost + 1,
            ) by {
            assert(before.within(
                before.nodes@[n].grid@.step(dirs_spec()[j].x as int, dirs_spec()[j].y as int).tiles,
                before.nodes@[n].g_cost + 1,
            ));
        }
    }
    assert forall|k: int|
        0 <= k < after.open_g.len() && #[trigger] after.open_g@[k] is Some implies exists|i: int|
        0 <= i < after.open_set.view().len() && after.node_keys@[(
        #[trigger] after.open_set.view()[i]).2 as int] == k && after.nodes@[after.open_set.view()[
        i].2 as int].g_cost == after.open_g@[k]->0 by {
        assert(k != skey);
        assert(before.open_g@[k] is Some);
        let i = choose|i: int|
            0 <= i < before.open_set.view().len() && before.node_keys@[(
            #[trigger] before.open_set.view()[i]).2 as int] == k && before.nodes@[before.open_set.view()[
            i].2 as int].g_cost == before.open_g@[k]->0;
        let x = before.open_set.view()[i];
        assert(before.open_set.view().contains(x));
        assert(x != e);
        assert(after.open_set.view().contains(x));
        let i2 = choose|i2: int| 0 <= i2 < after.open_set.view().len() && after.open_set.view()[i2] == x;
    }
    let k0 = before.node_keys@[0] as int;
    if k0 != skey {
        assert(after.closed@[k0] == before.closed@[k0]);
        assert(after.open_g@[k0] == before.open_g@[k0]);
    }
}

/// Moves `0..i` of a path end on a well-formed board, from which move `i` is
/// legal and leads to the board after moves `0..=i`.
proof fn lemma_path_prefix(b: Board, ops: Seq<Complex<i32>>, i: int)
    requires
        b.wf(),
        b.distinct(),
        path_from(b, ops),
        0 <= i <= ops.len(),
    ensures
        path_from(b, ops.take(i)),
        b.replay(ops.take(i)).wf(),
        b.replay(ops.take(i)).distinct(),
        b.replay(ops.take(i)).size == b.size,
        i < ops.len() ==> dirs_spec().contains(ops[i]) && b.replay(ops.take(i)).legal(
            ops[i].x as int,
            ops[i].y as int,
        ) && b.replay(ops.take(i + 1)) == b.replay(ops.take(i)).step(ops[i].x as int, ops[i].y as int),
{
    let pre = ops.take(i);
    assert(pre + ops.skip(i) =~= ops);
    lemma_replay_concat(b, pre, ops.skip(i));
    assert forall|x: int| 0 <= x < pre.len() implies dirs_spec().contains(#[trigger] pre[x]) by {
        assert(pre[x] == ops[x]);
    }
    lemma_replay_keeps_parity(b, pre);
    lemma_replay_wf(b, pre);
    if i < ops.len() {
        let nxt = ops.take(i + 1);
        assert(nxt + ops.skip(i + 1) =~= ops);
        lemma_replay_concat(b, nxt, ops.skip(i + 1));
        assert(nxt.drop_last() =~= pre);
        assert(nxt.last() == ops[i]);
    }
}

/// Along a path, a board's estimate is at most the number of moves left plus
/// the estimate of the last board.
proof fn lemma_h_chain(h: Heuristic, b: Board, ops: Seq<Complex<i32>>, i: int)
    requires
        b.wf(),
        b.distinct(),
        path_from(b, ops),
        0 <= i <= ops.len(),
    ensures
        h_total(h, b.replay(ops.take(i))) <= (ops.len() - i) + h_total(h, b.replay(ops)),
    decreases ops.len() - i,
{
    assert(ops.take(ops.len() as int) =~= ops);
    if i < ops.len() {
        lemma_path_prefix(b, ops, i);
        lemma_unit_move(ops[i]);
        lemma_consistent(h, b.replay(ops.take(i)), ops[i].x as int, ops[i].y as int);
        lemma_h_chain(h, b, ops, i + 1);
    }
}

/// On any path from the start to a board that is not closed, some queued
/// entry has an f-cost of at most the path's length plus that board's
/// estimate.
proof fn lemma_frontier(
    st: Search,
    start: Board,
    size: i32,
    h: Heuristic,
    goal: Seq<i32>,
    ops: Seq<Complex<i32>>,
    i: int,
)
    requires
        st.inv(start, size, h),
        st.complete(start, goal, -1),
        st.optimal_inv(start),
        start.wf(),
        start.distinct(),
        path_from(start, ops),
        0 <= i <= ops.len(),
        forall|j: int| 0 <= j < i ==> st.closed_tiles(#[trigger] start.replay(ops.take(j)).tiles),
        !st.closed_tiles(start.replay(ops).tiles),
    ensures
        exists|e: int|
            0 <= e < st.open_set.view().len() && (#[trigger] st.open_set.view()[e]).0 <= ops.len()
                + h_total(h, start.replay(ops)),
    decreases ops.len() - i,
{
    assert(node_ok(st.nodes@, 0, size, h));
    let n_ops = ops.len() as int;
    assert(ops.take(n_ops) =~= ops);
    lemma_path_prefix(start, ops, i);
    let p = start.replay(ops.take(i));
    lemma_h_chain(h, start, ops, i);
    if st.closed_tiles(p.tiles) {
        assert(i < n_ops);
        assert forall|j: int| 0 <= j < i + 1 implies st.closed_tiles(
            #[trigger] start.replay(ops.take(j)).tiles,
        ) by {}
        lemma_frontier(st, start, size, h, goal, ops, i + 1);
    } else {
        // the key and a queued node holding `p`, at a cost of at most `i`
        let (k, gv) = if i == 0 {
            assert(ops.take(0) =~= Seq::<Complex<i32>>::empty());
            let k0 = st.node_keys@[0] as int;
            assert(st.keys.view()[k0] == start.tiles);
            assert(!st.closed@[k0]);
            (k0, 0int)
        } else {
            lemma_path_prefix(start, ops, i - 1);
            let q = start.replay(ops.take(i - 1));
            assert(st.closed_tiles(start.replay(ops.take(i - 1)).tiles));
            let kq = choose|kq: int|
                0 <= kq < st.keys.view().len() && #[trigger] st.keys.view()[kq] == q.tiles && st.closed@[kq];
            let n = choose|n: int|
                0 <= n < st.nodes.len() && st.expanded@[n] && #[trigger] st.node_keys@[n] == kq;
            assert(node_ok(st.nodes@, n, size, h));
            lemma_same_tiles_same_board(st.nodes@[n].grid@, q);
            assert(path_from(start, ops.take(i - 1)));
            assert(st.nodes@[n].g_cost <= i - 1);
            let d = ops[i - 1];
            let j = choose|j: int| 0 <= j < 4 && dirs_spec()[j] == d;
            assert(st.nodes@[n].grid@.legal(dirs_spec()[j].x as int, dirs_spec()[j].y as int));
            assert(st.within(p.tiles, st.nodes@[n].g_cost + 1));
            let kp = choose|kp: int|
                0 <= kp < st.keys.view().len() && #[trigger] st.keys.view()[kp] == p.tiles && (st.closed@[kp] || (
                st.open_g@[kp] is Some && st.open_g@[kp]->0 <= st.nodes@[n].g_cost + 1));
            (kp, i)
        };
        assert(st.open_g@[k] is Some && st.open_g@[k]->0 <= gv);
        let w = choose|w: int|
            0 <= w < st.open_set.view().len() && st.node_keys@[(
            #[trigger] st.open_set.view()[w]).2 as int] == k && st.nodes@[st.open_set.view()[
            w].2 as int].g_cost == st.open_g@[k]->0;
        let x = st.open_set.view()[w];
        assert(node_ok(st.nodes@, x.2 as int, size, h));
        lemma_same_tiles_same_board(st.nodes@[x.2 as int].grid@, p);
    }
}

/// A node popped first from the queue, whose board was not yet closed, was
/// reached by a shortest path.
proof fn lemma_pop_optimal(
    st: Search,
    e: Entry,
    start: Board,
    size: i32,
    h: Heuristic,
    goal: Seq<i32>,
    ops: Seq<Complex<i32>>,
)
    requires
        st.inv(start, size, h),
        st.complete(start, goal, -1),
        st.optimal_inv(start),
        st.open_set.view().contains(e),
        forall|k: int|
            0 <= k < st.open_set.view().len() ==> entry_le(e, #[trigger] st.open_set.view()[k]),
        e.2 < st.nodes.len(),
        !st.closed@[st.node_keys@[e.2 as int] as int],
        path_from(start, ops),
        start.replay(ops).tiles == st.nodes@[e.2 as int].grid.v@,
    ensures
        st.nodes@[e.2 as int].g_cost <= ops.len(),
{
    assert(node_ok(st.nodes@, 0, size, h));
    let ke = st.node_keys@[e.2 as int] as int;
    st.keys.lemma_distinct();
    assert(!st.closed_tiles(start.replay(ops).tiles)) by {
        if st.closed_tiles(start.replay(ops).tiles) {
            let k = choose|k: int|
                0 <= k < st.keys.view().len() && #[trigger] st.keys.view()[k] == start.replay(ops).tiles
                    && st.closed@[k];
            assert(k == ke);
        }
    }
    lemma_frontier(st, start, size, h, goal, ops, 0);
    let w = choose|w: int|
        0 <= w < st.open_set.view().len() && (#[trigger] st.open_set.view()[w]).0 <= ops.len() + h_total(
            h,
            start.replay(ops),
        );
    assert(entry_le(e, st.open_set.view()[w]));
    let we = choose|we: int| 0 <= we < st.open_set.view().len() && st.open_set.view()[we] == e;
    assert(node_ok(st.nodes@, e.2 as int, size, h));
    assert(ops.take(ops.len() as int) =~= ops);
    lemma_path_prefix(start, ops, ops.len() as int);
    lemma_same_tiles_same_board(st.nodes@[e.2 as int].grid@, start.replay(ops));
}

impl Search {
    /// Every board reachable from the start by legal unit moves is known.
    proof fn lemma_reach_known(&self, start: Board, goal: Seq<i32>, size: i32, h: Heuristic, ops: Seq<Complex<i32>>)
        requires
            self.inv(start, size, h),
            self.complete(start, goal, -1),
            self.open_set.view().len() == 0,
            start.replay_legal(ops),
            forall|i: int| 0 <= i < ops.len() ==> dirs_spec().contains(#[trigger] ops[i]),
        ensures
            self.known(start.replay(ops).tiles),
        decreases ops.len(),
    {
        assert(node_ok(self.nodes@, 0, size, h));
        if ops.len() > 0 {
            let prev = ops.drop_last();
            assert forall|i: int| 0 <= i < prev.len() implies dirs_spec().contains(#[trigger] prev[i]) by {
                assert(prev[i] == ops[i]);
            }
            self.lemma_reach_known(start, goal, size, h, prev);
            let p = start.replay(prev);
            lemma_replay_keeps_parity(start, prev);
            lemma_replay_wf(start, prev);
            let k = choose|k: int|
                0 <= k < self.keys.view().len() && #[trigger] self.keys.view()[k] == p.tiles && (
                self.closed@[k] || self.open_g@[k] is Some);
            if self.open_g@[k] is Some {
                let i = choose|i: int|
                    0 <= i < self.open_set.view().len() && self.node_keys@[(
                    #[trigger] self.open_set.view()[i]).2 as int] == k;
            }
            assert(self.closed@[k]);
            let n = choose|n: int|
                0 <= n < self.nodes.len() && self.expanded@[n] && #[trigger] self.node_keys@[n] == k;
            assert(node_ok(self.nodes@, n, size, h));
            assert(self.nodes@[n].grid.v@ == p.tiles);
            lemma_same_tiles_same_board(self.nodes@[n].grid@, p);
            let d = ops.last();
            assert(dirs_spec().contains(ops[ops.len() - 1]));
            let j = choose|j: int| 0 <= j < 4 && dirs_spec()[j] == d;
            assert(self.nodes@[n].grid@.legal(dirs_spec()[j].x as int, dirs_spec()[j].y as int));
        }
    }

    /// A search whose queue ran dry never reached the goal, so no sequence of
    /// unit moves solves the start.
    proof fn lemma_exhausted(&self, start: Board, goal: Seq<i32>, size: i32, h: Heuristic)
        requires
            self.inv(start, size, h),
            self.complete(start, goal, -1),
            self.open_set.view().len() == 0,
            goal == solved_board(size as int).tiles,
            start.size == size,
        ensures
            forall|ops: Seq<Complex<i32>>| !#[trigger] solves(start, ops),
    {
        assert forall|ops: Seq<Complex<i32>>| !#[trigger] solves(start, ops) by {
            if solves(start, ops) {
                self.lemma_reach_known(start, goal, size, h, ops);
                let k = choose|k: int|
                    0 <= k < self.keys.view().len() && #[trigger] self.keys.view()[k] == goal && (
                    self.closed@[k] || self.open_g@[k] is Some);
                if self.open_g@[k] is Some {
                    let i = choose|i: int|
                        0 <= i < self.open_set.view().len() && self.node_keys@[(
                        #[trigger] self.open_set.view()[i]).2 as int] == k;
                }
            }
        }
    }
}

/// Marking the node just expanded keeps the search's bookkeeping: its
/// neighbours are all closed or queued, and it was reached by a shortest path.
proof fn lemma_mark_expanded(
    pre: Search,
    st: Search,
    before_pop: Search,
    e: Entry,
    start: Board,
    size: i32,
    h: Heuristic,
    goal: Seq<i32>,
)
    requires
        before_pop.inv(start, size, h),
        before_pop.complete(start, goal, -1),
        before_pop.optimal_inv(start),
        before_pop.open_set.view().contains(e),
        forall|k: int|
            0 <= k < before_pop.open_set.view().len() ==> entry_le(e, #[trigger] before_pop.open_set.view()[k]),
        e.2 < before_pop.nodes.len(),
        !before_pop.closed@[before_pop.node_keys@[e.2 as int] as int],
        pre.inv(start, size, h),
        pre.complete(start, goal, pre.node_keys@[e.2 as int] as int),
        pre.optimal_inv(start),
        e.2 < pre.nodes.len(),
        pre.nodes@[e.2 as int] == before_pop.nodes@[e.2 as int],
        pre.closed@[pre.node_keys@[e.2 as int] as int],
        forall|i: int|
            0 <= i < 4 && pre.nodes@[e.2 as int].grid@.legal(
                (#[trigger] dirs_spec()[i]).x as int,
                dirs_spec()[i].y as int,
            ) ==> pre.known(
                pre.nodes@[e.2 as int].grid@.step(dirs_spec()[i].x as int, dirs_spec()[i].y as int).tiles,
            ),
        forall|i: int|
            0 <= i < 4 && pre.nodes@[e.2 as int].grid@.legal(
                (#[trigger] dirs_spec()[i]).x as int,
                dirs_spec()[i].y as int,
            ) ==> pre.within(
                pre.nodes@[e.2 as int].grid@.step(dirs_spec()[i].x as int, dirs_spec()[i].y as int).tiles,
                pre.nodes@[e.2 as int].g_cost + 1,
            ),
        st.nodes@ == pre.nodes@,
        st.node_keys@ == pre.node_keys@,
        st.keys.view() == pre.keys.view(),
        st.open_g@ == pre.open_g@,
        st.closed@ == pre.closed@,
        st.open_set.view() == pre.open_set.view(),
        st.expanded@ == pre.expanded@.update(e.2 as int, true),
    ensures
        st.complete(start, goal, -1),
        st.optimal_inv(start),
{
    let sid = e.2 as int;
    let skey = pre.node_keys@[sid] as int;
    assert forall|n: int| 0 <= n < st.nodes.len() && #[trigger] st.expanded@[n] implies {
        &&& st.closed@[st.node_keys@[n] as int]
        &&& forall|i: int|
            0 <= i < 4 && st.nodes@[n].grid@.legal(
                (#[trigger] dirs_spec()[i]).x as int,
                dirs_spec()[i].y as int,
            ) ==> st.known(
                st.nodes@[n].grid@.step(dirs_spec()[i].x as int, dirs_spec()[i].y as int).tiles,
            )
    } by {
        if n != sid {
            assert(pre.expanded@[n]);
            assert forall|i: int|
                0 <= i < 4 && st.nodes@[n].grid@.legal(
                    (#[trigger] dirs_spec()[i]).x as int,
                    dirs_spec()[i].y as int,
                ) implies st.known(
                    st.nodes@[n].grid@.step(dirs_spec()[i].x as int, dirs_spec()[i].y as int).tiles,
                ) by {
                let t = pre.nodes@[n].grid@.step(dirs_spec()[i].x as int, dirs_spec()[i].y as int).tiles;
                assert(pre.known(t));
                let k = choose|k: int|
                    0 <= k < pre.keys.view().len() && #[trigger] pre.keys.view()[k] == t && (
                    pre.closed@[k] || pre.open_g@[k] is Some);
                assert(st.keys.view()[k] == t);
            }
        } else {
            assert forall|i: int|
                0 <= i < 4 && st.nodes@[n].grid@.legal(
                    (#[trigger] dirs_spec()[i]).x as int,
                    dirs_spec()[i].y as int,
                ) implies st.known(
                    st.nodes@[n].grid@.step(dirs_spec()[i].x as int, dirs_spec()[i].y as int).tiles,
                ) by {
                let t = pre.nodes@[n].grid@.step(dirs_spec()[i].x as int, dirs_spec()[i].y as int).tiles;
                assert(pre.known(t));
                let k = choose|k: int|
                    0 <= k < pre.keys.view().len() && #[trigger] pre.keys.view()[k] == t && (
                    pre.closed@[k] || pre.open_g@[k] is Some);
                assert(st.keys.view()[k] == t);
            }
        }
    }
    assert forall|k: int|
        0 <= k < st.closed.len() && #[trigger] st.closed@[k] && k != -1 implies exists|n: int|
        0 <= n < st.nodes.len() && st.expanded@[n] && #[trigger] st.node_keys@[n] == k by {
        if k == skey {
            assert(st.expanded@[sid] && st.node_keys@[sid] == k);
        } else {
            assert(pre.closed@[k]);
            let n = choose|n: int|
                0 <= n < pre.nodes.len() && pre.expanded@[n] && #[trigger] pre.node_keys@[n] == k;
            assert(st.expanded@[n]);
        }
    }
    assert(pre.known(start.tiles));
    let k = choose|k: int|
        0 <= k < pre.keys.view().len() && #[trigger] pre.keys.view()[k] == start.tiles && (
        pre.closed@[k] || pre.open_g@[k] is Some);
    assert(st.keys.view()[k] == start.tiles);
    assert(st.known(start.tiles));
    assert forall|t: Seq<i32>, bd: int| #[trigger] pre.within(t, bd) implies st.within(t, bd) by {
        let k = choose|k: int|
            0 <= k < pre.keys.view().len() && #[trigger] pre.keys.view()[k] == t && (pre.closed@[k] || (
            pre.open_g@[k] is Some && pre.open_g@[k]->0 <= bd));
        assert(st.keys.view()[k] == t);
    }
    assert forall|n: int|
        0 <= n < st.nodes.len() && #[trigger] st.expanded@[n] implies forall|i: int|
        0 <= i < 4 && st.nodes@[n].grid@.legal(
            (#[trigger] dirs_spec()[i]).x as int,
            dirs_spec()[i].y as int,
        ) ==> st.within(
            st.nodes@[n].grid@.step(dirs_spec()[i].x as int, dirs_spec()[i].y as int).tiles,
            st.nodes@[n].g_cost + 1,
        ) by {
        assert forall|i: int|
            0 <= i < 4 && st.nodes@[n].grid@.legal(
                (#[trigger] dirs_spec()[i]).x as int,
                dirs_spec()[i].y as int,
            ) implies st.within(
                st.nodes@[n].grid@.step(dirs_spec()[i].x as int, dirs_spec()[i].y as int).tiles,
                st.nodes@[n].g_cost + 1,
            ) by {
            assert(pre.within(
                pre.nodes@[n].grid@.step(dirs_spec()[i].x as int, dirs_spec()[i].y as int).tiles,
                pre.nodes@[n].g_cost + 1,
            ));
        }
    }
    assert(before_pop.nodes@[sid] == st.nodes@[sid]);
    assert forall|n: int, ops: Seq<Complex<i32>>|
        0 <= n < st.nodes.len() && #[trigger] st.expanded@[n] && #[trigger] path_from(start, ops)
            && start.replay(ops).tiles == st.nodes@[n].grid.v@ implies st.nodes@[n].g_cost
            <= ops.len() by {
        if n == sid {
            lemma_pop_optimal(before_pop, e, start, size, h, goal, ops);
        } else {
            assert(pre.expanded@[n]);
        }
    }
}

/// The interned boards are pairwise different boards of `nn` cells, so there
/// are at most `nn^nn` of them.
proof fn lemma_keys_bounded(keys: &Interner, nn: nat)
    requires
        keys.wf(),
        nn >= 1,
        forall|k: int|
            0 <= k < keys.view().len() ==> (#[trigger] keys.view()[k]).len() == nn && digits_below(
                keys.view()[k],
                nn as int,
            ),
    ensures
        keys.view().len() <= pow(nn as int, nn),
{
    keys.lemma_distinct();
    lemma_distinct_boards_bounded(keys.view(), nn);
}

impl Search {
    /// The moves from the root to node `id`, read back along parents.
    fn path(&self, id: usize, Ghost(start): Ghost<Board>, Ghost(size): Ghost<i32>, Ghost(h): Ghost<Heuristic>) -> (r: Vec<Complex<i32>>)
        requires
            self.inv(start, size, h),
            id < self.nodes.len(),
        ensures
            forall|k: int| 0 <= k < r.len() ==> dirs_spec().contains(#[trigger] r@[k]),
            start.replay_legal(r@),
            start.replay(r@) == self.nodes@[id as int].grid@,
            r.len() == self.nodes@[id as int].g_cost,
    {
        proof {
            lemma_path_to(self.nodes@, id as int, size, h);
        }
        let mut rev: Vec<Complex<i32>> = Vec::new();
        let mut cur = id;
        while cur != 0
            invariant
                self.inv(start, size, h),
                cur < self.nodes.len(),
                path_to(self.nodes@, id as int) == path_to(self.nodes@, cur as int) + reversed(rev@),
            decreases cur,
        {
            assert(node_ok(self.nodes@, cur as int, size, h));
            let d = match self.nodes[cur].last_op {
                Some(d) => d,
                None => {
                    proof {
                        assert(false);
                    }
                    Complex::new(0, 0)
                },
            };
            let ghost before = rev@;
            rev.push(d);
            proof {
                let p = self.nodes@[cur as int].parent as int;
                assert(path_to(self.nodes@, cur as int) == path_to(self.nodes@, p).push(d));
                assert(reversed(rev@) =~= seq![d] + reversed(before));
                assert(path_to(self.nodes@, p).push(d) + reversed(before) =~= path_to(self.nodes@, p)
                    + reversed(rev@));
            }
            cur = self.nodes[cur].parent;
        }
        let mut out: Vec<Complex<i32>> = Vec::new();
        let mut k = rev.len();
        while k > 0
            invariant
                k <= rev.len(),
                out@ == reversed(rev@).subrange(0, rev.len() - k),
            decreases k,
        {
            k = k - 1;
            out.push(rev[k]);
            assert(out@ =~= reversed(rev@).subrange(0, rev.len() - k));
        }
        proof {
            assert(path_to(self.nodes@, 0) =~= Seq::<Complex<i32>>::empty());
            assert(out@ =~= path_to(self.nodes@, id as int));
        }
        out
    }
}

/// `ops` solve `b` without passing a board twice, and after `b` they avoid
/// the boards of `seen`.
spec fn fresh_solution(b: Board, ops: Seq<Complex<i32>>, seen: Seq<Seq<i32>>) -> bool {
    &&& solves(b, ops)
    &&& forall|i: int, k: int|
        0 <= i < k <= ops.len() ==> #[trigger] b.replay(ops.take(i)).tiles != #[trigger] b.replay(
            ops.take(k),
        ).tiles
    &&& forall|i: int| 1 <= i <= ops.len() ==> !seen.contains(#[trigger] b.replay(ops.take(i)).tiles)
}

/// After the first move of a fresh solution, the rest is a fresh solution
/// from the board that move makes, which also avoids that board.
proof fn lemma_fresh_tail(b: Board, ops: Seq<Complex<i32>>, seen: Seq<Seq<i32>>)
    requires
        b.wf(),
        ops.len() > 0,
        fresh_solution(b, ops, seen),
    ensures
        b.legal(ops[0].x as int, ops[0].y as int),
        !seen.contains(b.step(ops[0].x as int, ops[0].y as int).tiles),
        fresh_solution(
            b.step(ops[0].x as int, ops[0].y as int),
            ops.skip(1),
            seen.push(b.step(ops[0].x as int, ops[0].y as int).tiles),
        ),
{
    let d = ops[0];
    let c = b.step(d.x as int, d.y as int);
    let first = ops.take(1);
    let rest = ops.skip(1);
    assert(first + rest =~= ops);
    assert(first.drop_last() =~= Seq::<Complex<i32>>::empty());
    assert(first.last() == d);
    assert(b.replay(first.drop_last()) == b.replay(Seq::<Complex<i32>>::empty()));
    assert(b.replay(first) == c);
    lemma_replay_concat(b, first, rest);
    assert(b.replay_legal(first));
    assert(b.replay(ops.take(1)) == c);
    assert forall|i: int| 0 <= i <= rest.len() implies #[trigger] c.replay(rest.take(i)) == b.replay(
        ops.take(i + 1),
    ) && (c.replay_legal(rest.take(i)) == b.replay_legal(ops.take(i + 1))) by {
        lemma_replay_concat(b, first, rest.take(i));
        assert(first + rest.take(i) =~= ops.take(i + 1));
    }
    assert(rest.take(rest.len() as int) =~= rest);
    assert(ops.take(ops.len() as int) =~= ops);
    assert forall|i: int| 0 <= i < rest.len() implies dirs_spec().contains(#[trigger] rest[i]) by {
        assert(rest[i] == ops[i + 1]);
    }
    assert forall|i: int, k: int| 0 <= i < k <= rest.len() implies #[trigger] c.replay(rest.take(i)).tiles
        != #[trigger] c.replay(rest.take(k)).tiles by {
        assert(c.replay(rest.take(i)) == b.replay(ops.take(i + 1)));
        assert(c.replay(rest.take(k)) == b.replay(ops.take(k + 1)));
    }
    let seen2 = seen.push(c.tiles);
    assert forall|i: int| 1 <= i <= rest.len() implies !seen2.contains(
        #[trigger] c.replay(rest.take(i)).tiles,
    ) by {
        let t = c.replay(rest.take(i)).tiles;
        assert(t == b.replay(ops.take(i + 1)).tiles);
        assert(!seen.contains(b.replay(ops.take(i + 1)).tiles));
        assert(b.replay(ops.take(1)).tiles != b.replay(ops.take(i + 1)).tiles);
        if seen2.contains(t) {
            let w = choose|w: int| 0 <= w < seen2.len() && seen2[w] == t;
            if w < seen.len() {
                assert(seen[w] == t);
            }
        }
    }
    assert(!seen.contains(b.replay(ops.take(1)).tiles));
}

/// A solution that passes no board twice is fresh with respect to its start.
proof fn lemma_simple_is_fresh(b: Board, ops: Seq<Complex<i32>>)
    requires
        solves(b, ops),
        forall|i: int, k: int|
            0 <= i < k <= ops.len() ==> #[trigger] b.replay(ops.take(i)).tiles != #[trigger] b.replay(
                ops.take(k),
            ).tiles,
    ensures
        fresh_solution(b, ops, seq![b.tiles]),
{
    assert(ops.take(0) =~= Seq::<Complex<i32>>::empty());
    assert forall|i: int| 1 <= i <= ops.len() implies !seq![b.tiles].contains(
        #[trigger] b.replay(ops.take(i)).tiles,
    ) by {
        assert(b.replay(ops.take(0)).tiles != b.replay(ops.take(i)).tiles);
        if seq![b.tiles].contains(b.replay(ops.take(i)).tiles) {
            assert(seq![b.tiles][0] == b.tiles);
        }
    }
}

/// Cutting out the moves between two visits of one board leaves a solution.
proof fn lemma_cut_loop(b: Board, ops: Seq<Complex<i32>>, i: int, k: int)
    requires
        b.wf(),
        b.distinct(),
        solves(b, ops),
        0 <= i < k <= ops.len(),
        b.replay(ops.take(i)).tiles == b.replay(ops.take(k)).tiles,
    ensures
        solves(b, ops.take(i) + ops.skip(k)),
{
    let head = ops.take(i);
    let tail = ops.skip(k);
    let upto = ops.take(k);
    let short = head + tail;
    assert(upto + tail =~= ops);
    assert(head + upto.skip(i) =~= upto);
    lemma_replay_concat(b, upto, tail);
    lemma_replay_concat(b, head, upto.skip(i));
    lemma_replay_concat(b, head, tail);
    assert forall|x: int| 0 <= x < upto.len() implies dirs_spec().contains(#[trigger] upto[x]) by {
        assert(upto[x] == ops[x]);
    }
    assert forall|x: int| 0 <= x < head.len() implies dirs_spec().contains(#[trigger] head[x]) by {
        assert(head[x] == ops[x]);
    }
    lemma_replay_keeps_parity(b, head);
    lemma_replay_keeps_parity(b, upto);
    lemma_replay_wf(b, head);
    lemma_replay_wf(b, upto);
    lemma_same_tiles_same_board(b.replay(head), b.replay(upto));
    assert forall|x: int| 0 <= x < short.len() implies dirs_spec().contains(#[trigger] short[x]) by {
        if x < i {
            assert(short[x] == ops[x]);
        } else {
            assert(short[x] == ops[x - i + k]);
        }
    }
}

/// A shortest solution never passes the same board twice.
pub proof fn lemma_shortest_is_simple(b: Board, ops: Seq<Complex<i32>>)
    requires
        b.wf(),
        b.distinct(),
        solves(b, ops),
        forall|other: Seq<Complex<i32>>| #[trigger] solves(b, other) ==> ops.len() <= other.len(),
    ensures
        forall|i: int, k: int|
            0 <= i < k <= ops.len() ==> #[trigger] b.replay(ops.take(i)).tiles != #[trigger] b.replay(
                ops.take(k),
            ).tiles,
{
    assert forall|i: int, k: int|
        0 <= i < k <= ops.len() implies #[trigger] b.replay(ops.take(i)).tiles != #[trigger] b.replay(
            ops.take(k),
        ).tiles by {
        if b.replay(ops.take(i)).tiles == b.replay(ops.take(k)).tiles {
            lemma_cut_loop(b, ops, i, k);
            assert((ops.take(i) + ops.skip(k)).len() < ops.len());
        }
    }
}

/// A solution can be shortened until it passes no board twice.
proof fn lemma_shortcut(b: Board, ops: Seq<Complex<i32>>)
    requires
        b.wf(),
        b.distinct(),
        solves(b, ops),
    ensures
        exists|short: Seq<Complex<i32>>|
            fresh_solution(b, short, seq![b.tiles]) && short.len() <= ops.len(),
    decreases ops.len(),
{
    if forall|i: int, k: int|
        0 <= i < k <= ops.len() ==> #[trigger] b.replay(ops.take(i)).tiles != #[trigger] b.replay(
            ops.take(k),
        ).tiles {
        lemma_simple_is_fresh(b, ops);
        assert(fresh_solution(b, ops, seq![b.tiles]) && ops.len() <= ops.len());
    } else {
        let (i, k) = choose|i: int, k: int|
            0 <= i < k <= ops.len() && #[trigger] b.replay(ops.take(i)).tiles == #[trigger] b.replay(
                ops.take(k),
            ).tiles;
        lemma_cut_loop(b, ops, i, k);
        lemma_shortcut(b, ops.take(i) + ops.skip(k));
    }
}

/// Result of one depth-limited probe.
enum Output {
    Found,
    /// Least f-cost above the limit among the boards cut off, if any.
    Limit(Option<u128>),
}

/// The boards of a list of tile vectors.
spec fn boards_of(seen: Seq<Vec<i32>>) -> Seq<Seq<i32>> {
    Seq::new(seen.len(), |i: int| seen[i]@)
}

/// The list holds pairwise different boards of `nn` cells with tiles below `nn`.
spec fn path_boards_ok(seen: Seq<Vec<i32>>, nn: nat) -> bool {
    &&& forall|i: int|
        0 <= i < seen.len() ==> (#[trigger] seen[i])@.len() == nn && digits_below(seen[i]@, nn as int)
    &&& forall|i: int, j: int|
        0 <= i < seen.len() && 0 <= j < seen.len() && i != j ==> seen[i]@ != seen[j]@
}

/// Whether `v` is one of the boards of `seen`.
fn on_path(seen: &Vec<Vec<i32>>, v: &Vec<i32>) -> (r: bool)
    ensures
        r == exists|i: int| 0 <= i < seen.len() && (#[trigger] seen@[i])@ == v@,
{
    let mut i: usize = 0;
    while i < seen.len()
        invariant
            i <= seen.len(),
            forall|k: int| 0 <= k < i ==> (#[trigger] seen@[k])@ != v@,
        decreases seen.len() - i,
    {
        if same_tiles(&seen[i], v) {
            return true;
        }
        i = i + 1;
    }
    false
}

/// Largest f-cost a probe can meet on boards of side `size`: a path of
/// pairwise different boards plus the largest heuristic estimate.
spec fn f_bound(size: int) -> int {
    pow(size * size, (size * size) as nat) + size * size * 2 * size
}

/// Depth-first probe from `grid`, reached from `start` by `moves`, cutting
/// off boards whose f-cost exceeds `lim`. `seen` holds the boards of the
/// current path; both it and `moves` are restored unless the goal is found.
fn compute(
    hc: &Hcost,
    target: &Vec<i32>,
    grid: &Grid,
    g: usize,
    hv: i64,
    lim: u128,
    seen: &mut Vec<Vec<i32>>,
    moves: &mut Vec<Complex<i32>>,
    time: &mut usize,
    size_c: &mut usize,
    Ghost(start): Ghost<Board>,
) -> (r: Output)
    requires
        hc.wf(),
        target@ == solved_board(hc.size as int).tiles,
        start.wf(),
        start.size == hc.size,
        grid@.wf(),
        grid@.distinct(),
        grid.size == hc.size,
        hv == h_total(hc.h, grid@),
        old(moves).len() == g,
        forall|k: int| 0 <= k < old(moves).len() ==> dirs_spec().contains(#[trigger] old(moves)@[k]),
        start.replay_legal(old(moves)@),
        start.replay(old(moves)@) == grid@,
        old(seen).len() == g + 1,
        path_boards_ok(old(seen)@, (hc.size * hc.size) as nat),
        exists|i: int| 0 <= i < old(seen).len() && (#[trigger] old(seen)@[i])@ == grid.v@,
        old(seen).len() <= pow(hc.size * hc.size, (hc.size * hc.size) as nat),
        *old(time) >= g,
        *old(size_c) >= g,
    ensures
        *final(time) >= *old(time),
        *final(size_c) >= *old(size_c),
        r is Found ==> *final(time) >= final(moves).len() && *final(size_c) >= final(moves).len(),
        r is Found ==> solves(start, final(moves)@),
        !(r is Found) ==> final(moves)@ == old(moves)@ && boards_of(final(seen)@) == boards_of(
            old(seen)@,
        ) && final(seen).len() == old(seen).len(),
        r matches Output::Limit(Some(v)) ==> lim < v <= f_bound(hc.size as int),
        r matches Output::Limit(None) ==> forall|ops: Seq<Complex<i32>>|
            !#[trigger] fresh_solution(grid@, ops, boards_of(old(seen)@)),
        r is Found ==> final(moves).len() <= lim,
        r matches Output::Limit(Some(v)) ==> forall|ops: Seq<Complex<i32>>|
            #[trigger] fresh_solution(grid@, ops, boards_of(old(seen)@)) ==> v <= g + ops.len(),
    decreases pow(hc.size * hc.size, (hc.size * hc.size) as nat) - g,
{
    let ghost nn = (hc.size * hc.size) as nat;
    proof {
        lemma_h_total_bound(hc.h, grid@);
        assert(nn >= 1) by (nonlinear_arith)
            requires
                nn == hc.size * hc.size,
                hc.size >= 1,
        ;
    }
    let f = (g as u128) + (hv as u128);
    if f > lim {
        proof {
            assert forall|ops: Seq<Complex<i32>>|
                #[trigger] fresh_solution(grid@, ops, boards_of(seen@)) implies f <= g + ops.len() by {
                lemma_admissible(hc.h, grid@, ops);
            }
        }
        return Output::Limit(Some(f));
    }
    if same_tiles(&grid.v, target) {
        proof {
            lemma_solved_tiles(grid@);
            lemma_replay_wf(start, moves@);
        }
        return Output::Found;
    }
    let ghost time0 = *time;
    let ghost size0 = *size_c;
    let ghost moves0 = moves@;
    let ghost seen0 = boards_of(seen@);
    let ghost seen_len = seen.len();
    let mut min_next: Option<u128> = None;
    let dirs = Grid::dirs();
    let mut j: usize = 0;
    while j < 4
        invariant
            hc.wf(),
            target@ == solved_board(hc.size as int).tiles,
            start.wf(),
            start.size == hc.size,
            grid@.wf(),
            grid@.distinct(),
            grid.size == hc.size,
            hv == h_total(hc.h, grid@),
            nn == hc.size * hc.size,
            nn >= 1,
            dirs@ == dirs_spec(),
            *time >= time0,
            *size_c >= size0,
            time0 >= g,
            size0 >= g,
            time0 == *old(time),
            size0 == *old(size_c),
            moves@ == moves0,
            moves.len() == g,
            forall|k: int| 0 <= k < moves.len() ==> dirs_spec().contains(#[trigger] moves@[k]),
            start.replay_legal(moves@),
            start.replay(moves@) == grid@,
            boards_of(seen@) == seen0,
            seen.len() == seen_len,
            seen.len() == g + 1,
            path_boards_ok(seen@, nn),
            seen.len() <= pow(nn as int, nn),
            min_next matches Some(v) ==> lim < v <= f_bound(hc.size as int),
            grid.v@ != solved_board(hc.size as int).tiles,
            g + hv <= lim,
            forall|i: int, ops: Seq<Complex<i32>>|
                0 <= i < j && #[trigger] fresh_solution(grid@, ops, seen0) && ops.len() > 0 && ops[0]
                    == #[trigger] dirs_spec()[i] ==> min_next is Some && min_next->0 <= g + ops.len(),
            min_next is None ==> forall|i: int|
                0 <= i < j && grid@.legal((#[trigger] dirs_spec()[i]).x as int, dirs_spec()[i].y as int)
                    ==> seen0.contains(grid@.step(dirs_spec()[i].x as int, dirs_spec()[i].y as int).tiles)
                    || forall|ops: Seq<Complex<i32>>|
                    !#[trigger] fresh_solution(
                        grid@.step(dirs_spec()[i].x as int, dirs_spec()[i].y as int),
                        ops,
                        seen0.push(grid@.step(dirs_spec()[i].x as int, dirs_spec()[i].y as int).tiles),
                    ),
            j <= 4,
        decreases 4 - j,
    {
        let d = dirs[j];
        if grid.is_op_legal(d) {
            *time = time.saturating_add(1);
            proof {
                lemma_unit_move(d);
            }
            let mut child = grid.duplicate();
            child.op(d);
            if !on_path(seen, &child.v) {
                proof {
                    lemma_step_distinct(grid@, d.x as int, d.y as int);
                }
                let ch = hc.smart_hcost(grid, hv, d);
                let ghost moves_before = moves@;
                let ghost seen_before = seen@;
                moves.push(d);
                seen.push(copy_tiles(&child.v));
                if moves.len() > *size_c {
                    *size_c = moves.len();
                }
                proof {
                    assert(moves@.drop_last() =~= moves_before);
                    assert forall|k: int| 0 <= k < moves.len() implies dirs_spec().contains(
                        #[trigger] moves@[k],
                    ) by {
                        if k < moves_before.len() {
                            assert(moves@[k] == moves_before[k]);
                        }
                    }
                    assert(path_boards_ok(seen@, nn)) by {
                        assert forall|a: int, b: int|
                            0 <= a < seen.len() && 0 <= b < seen.len() && a != b implies seen@[a]@
                            != seen@[b]@ by {
                            if a < seen_before.len() && b < seen_before.len() {
                                assert(seen@[a] == seen_before[a]);
                                assert(seen@[b] == seen_before[b]);
                            } else if a < seen_before.len() {
                                assert(seen@[a] == seen_before[a]);
                            } else {
                                assert(seen@[b] == seen_before[b]);
                            }
                        }
                        assert forall|a: int| 0 <= a < seen.len() implies (#[trigger] seen@[a])@.len()
                            == nn && digits_below(seen@[a]@, nn as int) by {
                            if a < seen_before.len() {
                                assert(seen@[a] == seen_before[a]);
                            }
                        }
                    }
                    lemma_distinct_boards_bounded(boards_of(seen@), nn);
                    assert(seen@[seen.len() - 1]@ == child.v@);
                    assert(boards_of(seen@) =~= seen0.push(child.v@)) by {
                        assert(boards_of(seen_before) =~= seen0);
                        assert forall|k: int| 0 <= k < seen_before.len() implies seen@[k] == seen_before[k] by {}
                    }
                }
                let ghost seen_at_call = boards_of(seen@);
                let res = compute(
                    hc,
                    target,
                    &child,
                    g + 1,
                    ch,
                    lim,
                    seen,
                    moves,
                    time,
                    size_c,
                    Ghost(start),
                );
                let ghost rg = res;
                let ghost min_before = min_next;
                match res {
                    Output::Found => {
                        return Output::Found;
                    },
                    Output::Limit(Some(v)) => {
                        min_next =
                        match min_next {
                            Some(m) => if v < m {
                                Some(v)
                            } else {
                                Some(m)
                            },
                            None => Some(v),
                        };
                    },
                    Output::Limit(None) => {},
                }
                proof {
                    assert(seen_at_call == seen0.push(child.v@));
                    assert forall|i: int, ops: Seq<Complex<i32>>|
                        0 <= i < j + 1 && #[trigger] fresh_solution(grid@, ops, seen0) && ops.len() > 0
                            && ops[0] == #[trigger] dirs_spec()[i] implies min_next is Some
                        && min_next->0 <= g + ops.len() by {
                        if i == j {
                            lemma_fresh_tail(grid@, ops, seen0);
                            assert(ops[0] == d);
                            assert(fresh_solution(child@, ops.skip(1), seen_at_call));
                        } else {
                            assert(min_before is Some && min_before->0 <= g + ops.len());
                        }
                    }
                }
                let ghost seen_mid = seen@;
                moves.pop();
                seen.pop();
                proof {
                    assert(moves@ =~= moves_before);
                    assert(boards_of(seen@) =~= boards_of(seen_before)) by {
                        assert forall|k: int| 0 <= k < seen.len() implies seen@[k]@ == seen_before[k]@ by {
                            assert(boards_of(seen_mid)[k] == seen_mid[k]@);
                        }
                    }
                    assert(boards_of(seen_before) =~= seen0);
                    assert forall|a: int| 0 <= a < seen.len() implies (#[trigger] seen@[a])@.len()
                        == nn && digits_below(seen@[a]@, nn as int) by {
                        assert(seen@[a]@ == seen0[a]);
                        assert(seen0[a] == seen_before[a]@);
                    }
                    assert forall|a: int, b: int|
                        0 <= a < seen.len() && 0 <= b < seen.len() && a != b implies seen@[a]@
                        != seen@[b]@ by {
                        assert(seen@[a]@ == seen0[a]);
                        assert(seen@[b]@ == seen0[b]);
                        assert(seen0[a] == seen_before[a]@);
                        assert(seen0[b] == seen_before[b]@);
                    }
                }
            } else {
                proof {
                    let w = choose|w: int| 0 <= w < seen.len() && (#[trigger] seen@[w])@ == child.v@;
                    assert(seen0[w] == child.v@);
                    assert(seen0.contains(child.v@));
                    assert forall|i: int, ops: Seq<Complex<i32>>|
                        0 <= i < j + 1 && #[trigger] fresh_solution(grid@, ops, seen0) && ops.len() > 0
                            && ops[0] == #[trigger] dirs_spec()[i] implies min_next is Some
                        && min_next->0 <= g + ops.len() by {
                        if i == j {
                            lemma_fresh_tail(grid@, ops, seen0);
                            assert(ops[0] == d);
                        }
                    }
                }
            }
        } else {
            proof {
                assert forall|i: int, ops: Seq<Complex<i32>>|
                    0 <= i < j + 1 && #[trigger] fresh_solution(grid@, ops, seen0) && ops.len() > 0
                        && ops[0] == #[trigger] dirs_spec()[i] implies min_next is Some
                    && min_next->0 <= g + ops.len() by {
                    if i == j {
                        lemma_fresh_tail(grid@, ops, seen0);
                        assert(ops[0] == d);
                    }
                }
            }
        }
        j = j + 1;
    }
    proof {
        assert forall|ops: Seq<Complex<i32>>| #[trigger] fresh_solution(grid@, ops, seen0) && min_next is Some
            implies min_next->0 <= g + ops.len() by {
            if ops.len() == 0 {
                assert(ops.take(0) =~= ops);
            } else {
                assert(dirs_spec().contains(ops[0]));
                let i = choose|i: int| 0 <= i < 4 && dirs_spec()[i] == ops[0];
            }
        }
        if min_next is None {
            assert forall|ops: Seq<Complex<i32>>| !#[trigger] fresh_solution(grid@, ops, seen0) by {
                if fresh_solution(grid@, ops, seen0) {
                    if ops.len() == 0 {
                        assert(ops.take(0) =~= ops);
                    } else {
                        lemma_fresh_tail(grid@, ops, seen0);
                        assert(dirs_spec().contains(ops[0]));
                        let i = choose|i: int| 0 <= i < 4 && dirs_spec()[i] == ops[0];
                    }
                }
            }
        }
    }
    Output::Limit(min_next)
}

/// Iterative-deepening A*: depth-first probes from `grid` under a rising
/// f-cost limit, starting at the board's heuristic estimate. Returns `None`
/// when a probe cuts nothing off without reaching the solved board, which
/// happens only when no sequence of moves reaches it.
fn idastar(grid: &Grid, h: Heuristic) -> (r: Option<Res>)
    requires
        grid@.wf(),
        grid@.distinct(),
    ensures
        r matches Some(res) ==> solves(grid@, res.sequence@) && res.grid@ == grid@,
        r is None ==> forall|ops: Seq<Complex<i32>>| !#[trigger] solves(grid@, ops),
        r matches Some(res) ==> res.time_complexity >= res.sequence.len() && res.size_complexity
            >= res.sequence.len(),
        r matches Some(res) ==> forall|ops: Seq<Complex<i32>>|
            #[trigger] solves(grid@, ops) ==> res.sequence.len() <= ops.len(),
{
    let size = grid.size;
    let ghost start = grid@;
    let ghost nn = (size * size) as nat;
    let hc = Hcost::new(size, h);
    let target = Grid::create_solved_grid(size);
    let h0 = hc.hcost(grid);
    proof {
        lemma_h_total_bound(h, grid@);
        assert(nn >= 1) by (nonlinear_arith)
            requires
                nn == size * size,
                size >= 1,
        ;
        vstd::arithmetic::power::lemma_pow_positive(nn as int, nn);
    }
    let mut lim: u128 = h0 as u128;
    proof {
        assert forall|ops: Seq<Complex<i32>>| #[trigger] solves(grid@, ops) implies lim <= ops.len() by {
            lemma_admissible(h, grid@, ops);
        }
    }
    let mut time: usize = 0;
    let mut size_c: usize = 0;
    let mut seen: Vec<Vec<i32>> = Vec::new();
    seen.push(copy_tiles(&grid.v));
    let mut moves: Vec<Complex<i32>> = Vec::new();
    let ghost seen0 = boards_of(seen@);
    proof {
        assert(seen@[0]@ == grid.v@);
        assert(start.replay(moves@) == start);
        assert(path_boards_ok(seen@, nn));
    }
    loop
        invariant
            hc.wf(),
            hc.h == h,
            hc.size == size,
            size == grid.size,
            start == grid@,
            grid@.wf(),
            grid@.distinct(),
            nn == size * size,
            nn >= 1,
            target.v@ == solved_board(size as int).tiles,
            h0 == h_total(h, grid@),
            pow(nn as int, nn) >= 1,
            moves.len() == 0,
            seen.len() == 1,
            boards_of(seen@) == seen0,
            seen0 == seq![grid.v@],
            lim <= f_bound(size as int),
            forall|ops: Seq<Complex<i32>>| #[trigger] solves(grid@, ops) ==> lim <= ops.len(),
        decreases f_bound(size as int) - lim,
    {
        proof {
            assert(moves@ =~= Seq::<Complex<i32>>::empty());
            assert(seen@[0]@ == seen0[0]);
            assert(start.replay(moves@) == start);
            assert(path_boards_ok(seen@, nn));
        }
        match compute(
            &hc,
            &target.v,
            grid,
            0,
            h0,
            lim,
            &mut seen,
            &mut moves,
            &mut time,
            &mut size_c,
            Ghost(start),
        ) {
            Output::Found => {
                return Some(
                    Res {
                        time_complexity: time,
                        size_complexity: size_c,
                        sequence: moves,
                        grid: grid.duplicate(),
                    },
                );
            },
            Output::Limit(Some(v)) => {
                proof {
                    assert(seen0 =~= seq![grid@.tiles]);
                    assert forall|ops: Seq<Complex<i32>>| #[trigger] solves(grid@, ops) implies v <= ops.len() by {
                        lemma_shortcut(grid@, ops);
                        let short = choose|short: Seq<Complex<i32>>|
                            fresh_solution(grid@, short, seq![grid@.tiles]) && short.len() <= ops.len();
                    }
                }
                lim = v;
            },
            Output::Limit(None) => {
                proof {
                    assert(seen0 =~= seq![grid@.tiles]);
                    assert forall|ops: Seq<Complex<i32>>| !#[trigger] solves(grid@, ops) by {
                        if solves(grid@, ops) {
                            lemma_shortcut(grid@, ops);
                            let short = choose|short: Seq<Complex<i32>>|
                                fresh_solution(grid@, short, seq![grid@.tiles]) && short.len() <= ops.len();
                        }
                    }
                }
                return None;
            },
        }
    }
}

/// Solves `grid` with heuristic `h` and algorithm `algo`. A board that fails
/// the parity test is refused at once; otherwise the search runs, and it
/// succeeds exactly when some sequence of unit moves reaches the solved
/// board, returning a shortest such sequence (which passes no board twice).
pub fn solve(grid: &Grid, h: Heuristic, algo: Algo) -> (r: Result<Res, UnsolvableError>)
    requires
        grid@.wf(),
        grid@.distinct(),
    ensures
        !solvable(grid@) ==> r is Err,
        r matches Ok(res) ==> solves(grid@, res.sequence@) && res.grid@ == grid@,
        r is Ok <==> reachable(grid@),
        r matches Ok(res) ==> forall|ops: Seq<Complex<i32>>|
            #[trigger] solves(grid@, ops) ==> res.sequence.len() <= ops.len(),
        r matches Ok(res) ==> forall|i: int, k: int|
            0 <= i < k <= res.sequence.len() ==> #[trigger] grid@.replay(res.sequence@.take(i)).tiles
                != #[trigger] grid@.replay(res.sequence@.take(k)).tiles,
        r matches Ok(res) ==> res.time_complexity >= res.sequence.len(),
        algo == Algo::Astar ==> (r matches Ok(res) ==> res.time_complexity >= res.sequence.len() + 1),
        algo == Algo::IDAstar ==> (r matches Ok(res) ==> res.size_complexity >= res.sequence.len()),
{
    proof {
        if reachable(grid@) {
            let ops = choose|ops: Seq<Complex<i32>>| #[trigger] solves(grid@, ops);
            lemma_solution_implies_solvable(grid@, ops);
        }
    }
    if !is_solvable(grid) {
        return Err(UnsolvableError);
    }
    let found = match algo {
        Algo::Astar => astar(grid, h),
        Algo::IDAstar => idastar(grid, h),
    };
    match found {
        Some(res) => {
            proof {
                lemma_shortest_is_simple(grid@, res.sequence@);
            }
            Ok(res)
        },
        None => Err(UnsolvableError),
    }
}

/// Walking a solution back from the solved board, last move first and each
/// move reversed, gives back the board it started from.
pub proof fn lemma_solution_reversed(b: Board, ops: Seq<Complex<i32>>)
    requires
        b.wf(),
        solves(b, ops),
    ensures
        solved_board(b.size).replay_legal(undo_ops(ops)),
        solved_board(b.size).replay(undo_ops(ops)) == b,
{
    assert forall|i: int| 0 <= i < ops.len() implies -1 <= (#[trigger] ops[i]).x <= 1 && -1
        <= ops[i].y <= 1 by {
        lemma_unit_move(ops[i]);
    }
    lemma_undo_ops(b, ops);
}

/// A board that some sequence of unit moves solves passes the parity test:
/// moves keep the parity of the inversions, and the solved board has none.
pub proof fn lemma_solution_implies_solvable(b: Board, ops: Seq<Complex<i32>>)
    requires
        b.wf(),
        b.distinct(),
        solves(b, ops),
    ensures
        solvable(b),
{
    lemma_replay_keeps_parity(b, ops);
    lemma_solved_solvable(b.size);
}

proof fn lemma_manhattan_drift(b: Board, ops: Seq<Complex<i32>>)
    requires
        b.wf(),
        b.distinct(),
        b.replay_legal(ops),
        forall|i: int| 0 <= i < ops.len() ==> dirs_spec().contains(#[trigger] ops[i]),
    ensures
        h_total(Heuristic::Manhattan, b) <= h_total(Heuristic::Manhattan, b.replay(ops)) + ops.len(),
    decreases ops.len(),
{
    if ops.len() > 0 {
        let prev = ops.drop_last();
        assert forall|i: int| 0 <= i < prev.len() implies dirs_spec().contains(#[trigger] prev[i]) by {
            assert(prev[i] == ops[i]);
        }
        lemma_manhattan_drift(b, prev);
        lemma_replay_keeps_parity(b, prev);
        let d = ops.last();
        assert(dirs_spec().contains(ops[ops.len() - 1]));
        lemma_unit_move(d);
        lemma_manhattan_step(b.replay(prev), d.x as int, d.y as int);
    }
}

/// Every heuristic underestimates: a board's estimate is at most the length
/// of any sequence of unit moves that solves it.
pub proof fn lemma_admissible(h: Heuristic, b: Board, ops: Seq<Complex<i32>>)
    requires
        b.wf(),
        b.distinct(),
        solves(b, ops),
    ensures
        h_total(h, b) <= ops.len(),
{
    lemma_h_le_manhattan(h, b);
    lemma_manhattan_drift(b, ops);
    lemma_solved_manhattan_zero(b.size);
}

impl Res {
    /// The boards that replaying the sequence passes through, the starting
    /// board first.
    pub fn boards(&self) -> (r: Vec<Grid>)
        requires
            self.grid@.wf(),
            self.grid@.replay_legal(self.sequence@),
        ensures
            r.len() == self.sequence.len() + 1,
            forall|i: int|
                0 <= i < r.len() ==> (#[trigger] r@[i])@ == self.grid@.replay(
                    self.sequence@.take(i),
                ),
    {
        let ghost start = self.grid@;
        let ghost ops = self.sequence@;
        let mut g = self.grid.duplicate();
        let mut r: Vec<Grid> = Vec::new();
        r.push(g.duplicate());
        proof {
            assert(ops.take(0) =~= Seq::<Complex<i32>>::empty());
        }
        let mut i: usize = 0;
        while i < self.sequence.len()
            invariant
                start == self.grid@,
                ops == self.sequence@,
                start.wf(),
                start.replay_legal(ops),
                i <= ops.len(),
                g@ == start.replay(ops.take(i as int)),
                r.len() == i + 1,
                forall|k: int| 0 <= k < r.len() ==> (#[trigger] r@[k])@ == start.replay(ops.take(k)),
            decreases ops.len() - i,
        {
            let d = self.sequence[i];
            proof {
                let pre = ops.take(i as int + 1);
                lemma_replay_concat(start, pre, ops.skip(i as int + 1));
                assert(pre + ops.skip(i as int + 1) =~= ops);
                assert(pre.drop_last() =~= ops.take(i as int));
                assert(pre.last() == d);
                lemma_replay_wf(start, ops.take(i as int));
                lemma_replay_concat(start, ops.take(i as int), seq![d]);
                assert(ops.take(i as int) + seq![d] =~= pre);
            }
            g.op(d);
            r.push(g.duplicate());
            i = i + 1;
        }
        r
    }
}

} // verus!
