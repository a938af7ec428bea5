use npuzzle::complex::Complex;
use npuzzle::grid::solver::{is_solvable, solve, unroll, Algo, Heuristic, UnsolvableError};
use npuzzle::grid::Grid;

fn grid3(v: Vec<i32>) -> Grid {
    let i = v.iter().position(|&t| t == 0).unwrap() as i32;
    Grid { size: 3, v, zero: Complex::new(i % 3, i / 3) }
}

#[test]
fn unsolvable_board_is_refused_by_every_search() {
    let g = grid3(vec![6, 4, 0, 2, 7, 3, 5, 1, 8]);
    for &h in &[Heuristic::Manhattan, Heuristic::Misplaced, Heuristic::Zero] {
        for &a in &[Algo::Astar, Algo::IDAstar] {
            assert_eq!(solve(&g, h, a).err(), Some(UnsolvableError));
        }
    }
}

#[test]
fn zero_heuristic_finds_a_shortest_path() {
    let mut g = Grid::create_solved_grid(3);
    g.op(Complex::new(0, -1));
    g.op(Complex::new(1, 0));
    g.op(Complex::new(0, 1));
    g.op(Complex::new(-1, 0));
    g.op(Complex::new(-1, 0));
    for &a in &[Algo::Astar, Algo::IDAstar] {
        let res = solve(&g, Heuristic::Zero, a).unwrap();
        assert_eq!(res.sequence.len(), 5);
    }
}

#[test]
fn solved_board_needs_no_move() {
    let g = Grid::create_solved_grid(3);
    for &a in &[Algo::Astar, Algo::IDAstar] {
        let res = solve(&g, Heuristic::Manhattan, a).unwrap();
        assert!(res.sequence.is_empty());
        assert_eq!(res.grid.v, g.v);
    }
    let one = Grid::create_solved_grid(1);
    assert!(solve(&one, Heuristic::Manhattan, Algo::Astar).unwrap().sequence.is_empty());
}

#[test]
fn path_walked_back_gives_the_origin() {
    let g = grid3(vec![3, 6, 1, 2, 4, 5, 8, 7, 0]);
    let res = solve(&g, Heuristic::Manhattan, Algo::Astar).unwrap();
    let mut b = Grid::create_solved_grid(3);
    for d in res.sequence.iter().rev() {
        b.op(*d * -1);
    }
    assert_eq!(b.v, g.v);
    assert_eq!(b.zero, g.zero);
}

#[test]
fn replayed_boards_follow_the_sequence() {
    let g = grid3(vec![1, 2, 3, 8, 4, 0, 7, 6, 5]);
    let res = solve(&g, Heuristic::Manhattan, Algo::Astar).unwrap();
    let boards = res.boards();
    assert_eq!(boards.len(), res.sequence.len() + 1);
    assert_eq!(boards[0].v, g.v);
    assert_eq!(boards.last().unwrap().v, Grid::create_solved_grid(3).v);
    assert_eq!(res.sequence, vec![Complex::new(-1, 0)]);
}

#[test]
fn metrics_are_counted() {
    let g = grid3(vec![1, 2, 3, 8, 4, 0, 7, 6, 5]);
    let a = solve(&g, Heuristic::Manhattan, Algo::Astar).unwrap();
    assert_eq!(a.time_complexity, 2);
    assert!(a.size_complexity >= 1);
    let i = solve(&g, Heuristic::Manhattan, Algo::IDAstar).unwrap();
    assert_eq!(i.size_complexity, 1);
    assert!(i.time_complexity >= 1);
}

#[test]
fn heuristic_distances() {
    let a = Complex::new(0, 0);
    let b = Complex::new(3, 4);
    assert_eq!(Heuristic::Manhattan.dist(a, b), 7);
    assert_eq!(Heuristic::Euclidian.dist(a, b), 5);
    assert_eq!(Heuristic::Euclidian.dist(a, Complex::new(2, 2)), 2);
    assert_eq!(Heuristic::Euclidian.dist(Complex::new(5, 1), Complex::new(0, 0)), 5);
    assert_eq!(Heuristic::Misplaced.dist(a, b), 1);
    assert_eq!(Heuristic::Misplaced.dist(b, b), 0);
    assert_eq!(Heuristic::Zero.dist(a, b), 0);
}

#[test]
fn unroll_follows_the_spiral() {
    let g = Grid::create_solved_grid(3);
    assert_eq!(unroll(&g), vec![1, 2, 3, 4, 5, 6, 7, 8, 0]);
    let g = grid3(vec![8, 4, 2, 3, 0, 5, 6, 7, 1]);
    assert_eq!(unroll(&g), vec![8, 4, 2, 5, 1, 7, 6, 3, 0]);
}

#[test]
fn one_swap_flips_solvability() {
    let g = Grid::create_solved_grid(3);
    assert!(is_solvable(&g));
    let h = grid3(vec![2, 1, 3, 8, 0, 4, 7, 6, 5]);
    assert!(!is_solvable(&h));
}

#[test]
fn searches_are_reproducible() {
    let g = grid3(vec![3, 6, 1, 2, 4, 5, 8, 7, 0]);
    for &a in &[Algo::Astar, Algo::IDAstar] {
        let r1 = solve(&g, Heuristic::Manhattan, a).unwrap();
        let r2 = solve(&g, Heuristic::Manhattan, a).unwrap();
        assert_eq!(r1.sequence, r2.sequence);
        assert_eq!(r1.time_complexity, r2.time_complexity);
        assert_eq!(r1.size_complexity, r2.size_complexity);
    }
}

#[test]
fn both_searches_agree_on_length() {
    let g = grid3(vec![8, 4, 2, 3, 0, 5, 6, 7, 1]);
    for &h in &[Heuristic::Manhattan, Heuristic::Misplaced, Heuristic::Euclidian] {
        let a = solve(&g, h, Algo::Astar).unwrap();
        let i = solve(&g, h, Algo::IDAstar).unwrap();
        assert_eq!(a.sequence.len(), i.sequence.len());
        assert!(a.time_complexity >= a.sequence.len() + 1);
        assert!(i.size_complexity >= i.sequence.len());
    }
}
