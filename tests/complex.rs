use npuzzle::complex::Complex;

#[test]
fn test_new() {
    let z = Complex::new(1, 2);
    assert!(z.x == 1);
    assert!(z.y == 2);
}

#[test]
fn test_equal() {
    assert!(Complex::new(2, 3) == Complex::new(2, 3));
    assert!(Complex::new(2, 3) != Complex::new(2, 4));
    assert!(Complex::new(1, 3) != Complex::new(2, 3));
}

#[test]
fn test_add() {
    assert!(Complex::new(1, 2) + Complex::new(2, 3) == Complex::new(3, 5));
}

#[test]
fn test_add_assign() {
    let mut z = Complex::new(1, 2);
    z += Complex::new(2, 3);
    assert!(z == Complex::new(3, 5));
}

#[test]
fn test_mul() {
    assert!(Complex::new(1, 2) * Complex::new(3, 4) == Complex::new(-5, 10));
}

#[test]
fn test_mul_assign() {
    let mut z = Complex::new(1, 2);
    z *= Complex::new(3, 4);
    assert!(z == Complex::new(-5, 10));
}

#[test]
fn scale_by_integer() {
    assert_eq!(Complex::new(2, -3) * -1, Complex::new(-2, 3));
    let mut z = Complex::new(4, 5);
    z *= 2;
    assert_eq!(z, Complex::new(8, 10));
}

#[test]
fn quarter_turn() {
    // multiplying by i turns (x, y) into (-y, x)
    assert_eq!(Complex::new(1, 0) * Complex::new(0, 1), Complex::new(0, 1));
    assert_eq!(Complex::new(0, 1) * Complex::new(0, 1), Complex::new(-1, 0));
}
