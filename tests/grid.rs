use npuzzle::complex::Complex;
use npuzzle::grid::solver::is_solvable;
use npuzzle::grid::Grid;

#[test]
fn create_solved_grid() {
    let g = Grid::create_solved_grid(3);
    assert!(g.size == 3);
    assert!(g.v == vec![1, 2, 3, 8, 0, 4, 7, 6, 5]);
    assert!(g.zero == Complex::new(1, 1));
}

#[test]
fn get_cell_ref() {
    let g = Grid::create_solved_grid(3);
    assert!(*g.get_cell_ref(Complex::new(2, 0)) == 3);
    assert!(*g.get_cell_ref(Complex::new(0, 2)) == 7);
}

#[test]
fn get_cell_mut() {
    let mut g = Grid::create_solved_grid(3);
    assert!(*g.get_cell_mut(Complex::new(2, 0)) == 3);
    assert!(*g.get_cell_mut(Complex::new(0, 2)) == 7);
}

#[test]
fn op() {
    let mut g = Grid::create_solved_grid(3);
    g.op(Complex::new(0, -1));
    assert!(g.v == vec![1, 0, 3, 8, 2, 4, 7, 6, 5]);
    g.op(Complex::new(1, 0));
    assert!(g.v == vec![1, 3, 0, 8, 2, 4, 7, 6, 5]);
}

#[test]
fn is_op_legal() {
    let mut g = Grid::create_solved_grid(3);
    assert!(Grid::dirs().iter().all(|d| g.is_op_legal(*d)));
    g.op(Complex::new(0, 1));
    assert!(!g.is_op_legal(Complex::new(0, 1)));
    g.op(Complex::new(1, 0));
    assert!(!g.is_op_legal(Complex::new(1, 0)));
    assert!(g.is_op_legal(Complex::new(-1, 0)));
    assert!(g.is_op_legal(Complex::new(0, -1)));
}

#[test]
fn op_moves_zero_coordinates() {
    let mut g = Grid::create_solved_grid(3);
    g.op(Complex::new(0, -1));
    assert_eq!(g.zero, Complex::new(1, 0));
    g.op(Complex::new(1, 0));
    assert_eq!(g.zero, Complex::new(2, 0));
}

#[test]
fn get_cell_mut_writes_the_cell() {
    let mut g = Grid::create_solved_grid(3);
    *g.get_cell_mut(Complex::new(1, 2)) = 42;
    assert_eq!(g.v, vec![1, 2, 3, 8, 0, 4, 7, 42, 5]);
}

#[test]
fn solved_grids_of_other_sides() {
    let g = Grid::create_solved_grid(1);
    assert_eq!(g.v, vec![0]);
    assert_eq!(g.zero, Complex::new(0, 0));
    let g = Grid::create_solved_grid(2);
    assert_eq!(g.v, vec![1, 2, 0, 3]);
    assert_eq!(g.zero, Complex::new(0, 1));
    let g = Grid::create_solved_grid(4);
    assert_eq!(g.v, vec![1, 2, 3, 4, 12, 13, 14, 5, 11, 0, 15, 6, 10, 9, 8, 7]);
    assert_eq!(g.zero, Complex::new(1, 2));
}

#[test]
fn solved_grid_is_a_permutation() {
    for size in 1..12 {
        let g = Grid::create_solved_grid(size);
        let n = (size * size) as usize;
        let mut seen = vec![false; n];
        for &t in g.v.iter() {
            assert!(t >= 0 && (t as usize) < n);
            assert!(!seen[t as usize]);
            seen[t as usize] = true;
        }
        assert_eq!(g.v[(g.zero.y * size + g.zero.x) as usize], 0);
    }
}

#[test]
fn op_then_opposite_restores() {
    let start = Grid::create_solved_grid(4);
    for d in Grid::dirs().iter() {
        let mut g = start.clone();
        if g.is_op_legal(*d) {
            g.op(*d);
            assert!(g.v != start.v);
            g.op(*d * -1);
            assert_eq!(g.v, start.v);
            assert_eq!(g.zero, start.zero);
        }
    }
}

#[test]
fn op_keeps_the_tiles() {
    let mut g = Grid::create_solved_grid(3);
    g.op(Complex::new(-1, 0));
    let mut sorted = g.v.clone();
    sorted.sort();
    assert_eq!(sorted, (0..9).collect::<Vec<i32>>());
    assert_eq!(g.zero, Complex::new(0, 1));
}

#[test]
fn random_grid_is_solvable() {
    for _ in 0..5 {
        let g = Grid::create_random_grid(3, 30);
        assert_eq!(g.size, 3);
        let mut sorted = g.v.clone();
        sorted.sort();
        assert_eq!(sorted, (0..9).collect::<Vec<i32>>());
        assert_eq!(g.v[(g.zero.y * 3 + g.zero.x) as usize], 0);
        assert!(is_solvable(&g));
    }
    let g = Grid::create_random_grid(1, 10);
    assert_eq!(g.v, vec![0]);
    let g = Grid::create_random_grid(4, 0);
    assert_eq!(g.v, Grid::create_solved_grid(4).v);
}
