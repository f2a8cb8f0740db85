use mst_tour::mst::build_mst;
use mst_tour::parse::{
    numbers_from_runs, parse_matrix, parse_number, parse_row, parse_row_with, ParseError,
};

fn chars(s: &str) -> Vec<char> {
    s.chars().collect()
}

#[test]
fn row_is_the_runs_of_digits_in_a_line() {
    assert_eq!(parse_row("0 1 3 4"), Ok(vec![0, 1, 3, 4]));
    assert_eq!(parse_row("[10, 200,3]"), Ok(vec![10, 200, 3]));
    assert_eq!(parse_row("  7\t8;9x"), Ok(vec![7, 8, 9]));
    assert_eq!(parse_row("12abc34"), Ok(vec![12, 34]));
}

#[test]
fn line_without_digits_is_an_empty_row() {
    assert_eq!(parse_row(""), Ok(Vec::new()));
    assert_eq!(parse_row("no numbers here"), Ok(Vec::new()));
}

#[test]
fn minus_sign_and_point_separate_like_anything_else() {
    assert_eq!(parse_row("-5 2.75"), Ok(vec![5, 2, 75]));
}

#[test]
fn leading_zeros_do_not_change_a_number() {
    assert_eq!(parse_row("007 000"), Ok(vec![7, 0]));
}

#[test]
fn number_that_does_not_fit_is_refused() {
    assert_eq!(parse_row("1 2147483647"), Ok(vec![1, 2147483647]));
    assert_eq!(parse_row("1 2147483648"), Err(ParseError::Number));
    assert_eq!(parse_row("99999999999999999999999999"), Err(ParseError::Number));
}

#[test]
fn digits_of_other_scripts_are_no_number() {
    // The pattern finds them as digits; they do not write an `i32`.
    assert_eq!(parse_row("1 \u{0663}"), Err(ParseError::Number));
}

#[test]
fn number_of_a_run() {
    assert_eq!(parse_number(&chars("0")), Some(0));
    assert_eq!(parse_number(&chars("42")), Some(42));
    assert_eq!(parse_number(&chars("2147483647")), Some(i32::MAX));
    assert_eq!(parse_number(&chars("2147483648")), None);
    assert_eq!(parse_number(&chars("")), None);
    assert_eq!(parse_number(&chars("4a")), None);
    assert_eq!(parse_number(&chars("-4")), None);
    assert_eq!(parse_number(&chars("+4")), None);
    assert_eq!(parse_number(&chars("0000000000000000000012")), Some(12));
}

#[test]
fn numbers_of_runs() {
    assert_eq!(numbers_from_runs(&vec![chars("1"), chars("23")]), Ok(vec![1, 23]));
    assert_eq!(numbers_from_runs(&Vec::new()), Ok(Vec::new()));
    assert_eq!(numbers_from_runs(&vec![chars("1"), chars("x")]), Err(ParseError::Number));
}

#[test]
fn matrix_has_one_row_for_each_line() {
    let lines = vec!["0 1 3".to_string(), "1 0 2".to_string(), "3 2 0".to_string()];
    assert_eq!(parse_matrix(&lines), Ok(vec![vec![0, 1, 3], vec![1, 0, 2], vec![3, 2, 0]]));
    assert_eq!(parse_matrix(&Vec::new()), Ok(Vec::new()));
    let ragged = vec!["0 1".to_string(), "".to_string()];
    assert_eq!(parse_matrix(&ragged), Ok(vec![vec![0, 1], Vec::new()]));
}

#[test]
fn matrix_with_a_bad_line_is_refused() {
    let lines = vec!["0 1".to_string(), "1 4294967296".to_string()];
    assert_eq!(parse_matrix(&lines), Err(ParseError::Number));
}

#[test]
fn text_to_tree() {
    let text = "0 1 3 4\n1 0 2 5\n3 2 0 6\n4 5 6 0";
    let lines: Vec<String> = text.lines().map(|l| l.to_string()).collect();
    let matrix = parse_matrix(&lines).unwrap();
    let tree = build_mst(&matrix).unwrap();
    let edges: Vec<(u32, u32, i32)> = tree.edges.iter().map(|e| (e.src, e.dst, e.weight)).collect();
    assert_eq!(edges, vec![(0, 1, 1), (1, 2, 2), (0, 3, 4)]);
}

#[test]
fn pattern_that_does_not_compile_is_refused() {
    assert_eq!(parse_row_with("(", "1 2"), Err(ParseError::Pattern));
    assert_eq!(parse_row_with("[0-9", "1 2"), Err(ParseError::Pattern));
}

#[test]
fn another_pattern_finds_other_numbers() {
    assert_eq!(parse_row_with("[0-9]", "12 3"), Ok(vec![1, 2, 3]));
    assert_eq!(parse_row_with("[1-9][0-9]*", "012 30"), Ok(vec![12, 30]));
    assert_eq!(parse_row_with("[a-z]+", "12 ab"), Err(ParseError::Number));
    assert_eq!(parse_row_with("x*", "1"), Err(ParseError::Number));
}
