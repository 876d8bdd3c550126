use sudoku::grid::Sudoku;
use sudoku::text::extract_digits;
use sudoku::text::parse_puzzles;
use sudoku::text::ParseError;

fn grid_from(rows: [[u8; 9]; 9]) -> Sudoku {
    let mut values: Vec<u8> = Vec::new();
    for row in rows.iter() {
        for &v in row.iter() {
            values.push(v);
        }
    }
    Sudoku::from_digits(&values).expect("well-formed grid")
}

fn lines(strs: &[&str]) -> Vec<String> {
    strs.iter().map(|s| s.to_string()).collect()
}

#[test]
fn render_uses_bracketed_rows() {
    let empty = grid_from([[0u8; 9]; 9]);
    let expected_line = "[0, 0, 0, 0, 0, 0, 0, 0, 0]\n";
    assert_eq!(empty.render(), expected_line.repeat(9));

    let mut rows = [[0u8; 9]; 9];
    rows[0] = [1, 2, 3, 4, 5, 6, 7, 8, 9];
    let rendered = grid_from(rows).render();
    let first = rendered.lines().next().unwrap();
    assert_eq!(first, "[1, 2, 3, 4, 5, 6, 7, 8, 9]");
}

#[test]
fn rendered_grid_parses_back_to_same_digits() {
    let rows = [
        [5, 3, 0, 0, 7, 0, 0, 0, 0],
        [6, 0, 0, 1, 9, 5, 0, 0, 0],
        [0, 9, 8, 0, 0, 0, 0, 6, 0],
        [8, 0, 0, 0, 6, 0, 0, 0, 3],
        [4, 0, 0, 8, 0, 3, 0, 0, 1],
        [7, 0, 0, 0, 2, 0, 0, 0, 6],
        [0, 6, 0, 0, 0, 0, 2, 8, 0],
        [0, 0, 0, 4, 1, 9, 0, 0, 5],
        [0, 0, 0, 0, 8, 0, 0, 7, 9],
    ];
    let grid = grid_from(rows);
    let digits = extract_digits(grid.render().as_str());
    assert_eq!(digits.len(), 81);
    for r in 0..9 {
        for c in 0..9 {
            assert_eq!(digits[r * 9 + c], rows[r][c]);
        }
    }
}

#[test]
fn extract_digits_ignores_formatting_characters() {
    assert_eq!(extract_digits("[1, 2]\n30"), vec![1, 2, 3, 0]);
    assert_eq!(extract_digits(""), Vec::<u8>::new());
    assert_eq!(extract_digits("[], \n"), Vec::<u8>::new());
}

#[test]
fn empty_input_yields_zero_puzzles() {
    let parsed = parse_puzzles(&Vec::new()).expect("empty input parses");
    assert_eq!(parsed.len(), 0);
}

#[test]
fn one_record_parses_to_its_grid() {
    let input = lines(&[
        "",
        "003020600",
        "900305001",
        "001806400",
        "008102900",
        "700000008",
        "006708200",
        "002609500",
        "800203009",
        "005010300",
    ]);
    let parsed = parse_puzzles(&input).expect("record parses");
    assert_eq!(parsed.len(), 1);
    let grid = &parsed[0];
    assert_eq!(grid.cell_at(0, 0), 0);
    assert_eq!(grid.cell_at(0, 2), 3);
    assert_eq!(grid.cell_at(1, 0), 9);
    assert_eq!(grid.cell_at(8, 2), 5);
    assert_eq!(grid.cell_at(8, 8), 0);
}

#[test]
fn two_records_parse_in_order() {
    let mut record: Vec<&str> = vec![""];
    record.extend(std::iter::repeat("123456789").take(9));
    let mut second: Vec<&str> = vec![""];
    second.extend(std::iter::repeat("000000000").take(9));
    record.extend(second);
    let parsed = parse_puzzles(&lines(&record)).expect("both records parse");
    assert_eq!(parsed.len(), 2);
    assert_eq!(parsed[0].cell_at(3, 0), 1);
    assert_eq!(parsed[1].cell_at(3, 0), 0);
}

#[test]
fn partial_record_is_rejected() {
    let input = lines(&["", "123456789", "123456789"]);
    assert!(matches!(parse_puzzles(&input), Err(ParseError::BadLineCount)));
}

#[test]
fn non_digit_character_is_rejected() {
    let input = lines(&[
        "",
        "00302060x",
        "900305001",
        "001806400",
        "008102900",
        "700000008",
        "006708200",
        "002609500",
        "800203009",
        "005010300",
    ]);
    assert!(matches!(parse_puzzles(&input), Err(ParseError::BadRow)));
}

#[test]
fn short_row_is_rejected() {
    let input = lines(&[
        "",
        "00302060",
        "900305001",
        "001806400",
        "008102900",
        "700000008",
        "006708200",
        "002609500",
        "800203009",
        "005010300",
    ]);
    assert!(matches!(parse_puzzles(&input), Err(ParseError::BadRow)));
}
