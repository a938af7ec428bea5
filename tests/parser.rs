use npuzzle::grid::parser::{parse, ParsingError};
use npuzzle::grid::Grid;

#[test]
fn duplicated_value() {
    let res = parse("3\n1 2 3\n8 0 4\n7 6 6\n");
    assert!(res.is_err());
}

#[test]
fn grid_size_1() {
    let res = parse("3\n1 2 3 9\n8 0 4 10\n7 6 5 11\n");
    assert!(res.is_err());
}

#[test]
fn grid_size_2() {
    let res = parse("4\n1 2 3\n8 0 4\n7 6 5\n");
    assert!(res.is_err());
}

#[test]
fn lines_count() {
    let res = parse("3\n1 2 3\n8 0 4\n");
    assert!(res.is_err());
}

#[test]
fn negative_size() {
    let res = parse("-3\n1 2 3\n8 0 4\n7 6 5\n");
    assert!(res.is_err());
}

#[test]
fn negative_value() {
    let res = parse("3\n1 2 3\n8 0 4\n7 6 -5\n");
    assert!(res.is_err());
}

#[test]
fn skipped_value() {
    let res = parse("3\n1 2 3\n8 0 4\n7 6 9\n");
    assert!(res.is_err());
}

#[test]
fn wrong_value() {
    let res = parse("3\n1 2 3\n8 0 4\n7 6 five\n");
    assert!(res.is_err());
}

#[test]
fn zero_size() {
    let res = parse("0\n\n");
    assert!(res.is_err());
}

const BIG_SNAIL: &str = "# This puzzle is solved\n10\n1 2 3 4 5 6 7 8 9 10\n36 37 38 39 40 41 42 43 44 11\n35 64 65 66 67 68 69 70 45 12\n34 63 84 85 86 87 88 71 46 13\n33 62 83 96 97 98 89 72 47 14\n32 61 82 95 0 99 90 73 48 15\n31 60 81 94 93 92 91 74 49 16\n30 59 80 79 78 77 76 75 50 17\n29 58 57 56 55 54 53 52 51 18\n28 27 26 25 24 23 22 21 20 19\n";

#[test]
fn big_snail() {
    let res = parse(BIG_SNAIL);
    assert!(res.is_ok());
    let g = res.unwrap();
    assert!(g.size == 10);
    assert!(g.v == Grid::create_solved_grid(10).v);
}

#[test]
fn comments() {
    let res = parse("# This puzzle is solvable\n3 # side\n3 2 6 # first row\n1 4 0\n# a comment line\n8 7 5\n");
    assert!(res.is_ok());
    let g = res.unwrap();
    assert!(g.size == 3);
    assert!(g.v == vec![3, 2, 6, 1, 4, 0, 8, 7, 5]);
}

#[test]
fn whitespaces() {
    let res = parse("\n   3   \n\n3\t2    6\n  1 4 0  \r\n\n\t8 7\t\t5\n\n");
    assert!(res.is_ok());
    let g = res.unwrap();
    assert!(g.size == 3);
    assert!(g.v == vec![3, 2, 6, 1, 4, 0, 8, 7, 5]);
}

#[test]
fn zero_coordinates_are_set() {
    let g = parse("3\n3 2 6\n1 4 0\n8 7 5\n").unwrap();
    assert_eq!(g.zero.x, 2);
    assert_eq!(g.zero.y, 1);
}

#[test]
fn missing_size_line() {
    assert_eq!(parse("# only comments\n\n").err(), Some(ParsingError));
    assert!(parse("").is_err());
    assert!(parse("1 2 3\n8 0 4\n7 6 5\n").is_err());
}

#[test]
fn row_width_mismatch() {
    assert!(parse("3\n1 2 3\n8 0\n4 7 6 5\n").is_err());
}

#[test]
fn out_of_range_tile() {
    assert!(parse("2\n1 2\n4 0\n").is_err());
}

#[test]
fn signed_and_padded_numbers() {
    let g = parse("+2\n01 +2\n-0 3\n").unwrap();
    assert_eq!(g.v, vec![1, 2, 0, 3]);
    assert!(parse("2\n1 2\n0 99999999999\n").is_err());
    assert!(parse("2\n1 +\n0 3\n").is_err());
}

#[test]
fn side_of_one() {
    let g = parse("1\n0\n").unwrap();
    assert_eq!(g.v, vec![0]);
    assert_eq!(g.size, 1);
}

#[test]
fn render_and_parse_back() {
    let g = Grid::create_random_grid(4, 40);
    let mut text = format!("{}\n", g.size);
    for y in 0..g.size {
        let row: Vec<String> = (0..g.size)
            .map(|x| g.v[(y * g.size + x) as usize].to_string())
            .collect();
        text.push_str(&row.join(" "));
        text.push('\n');
    }
    let back = parse(&text).unwrap();
    assert_eq!(back.v, g.v);
    assert_eq!(back.size, g.size);
    assert_eq!(back.zero, g.zero);
}
