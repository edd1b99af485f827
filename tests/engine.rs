use std::cell::RefCell;

use sudoku_core::cell::CellPart;
use sudoku_core::grid::grid_to_optional;
use sudoku_core::SolutionStep;
use sudoku_core::{Cell, Grid};
use sudoku_core::ParseError;

const EASY: &str = "\
003020600
900305001
001806400
008102900
700000008
006708200
002609500
800203009
005010300";

const EASY_SOLVED: &str = "\
483921657
967345821
251876493
548132976
729564138
136798245
372689514
814253769
695417382";

const HARD: &str = "\
800000000
003600000
070090200
050007000
000045700
000100030
001000068
008500010
090000400";

fn snapshot(grid: &Grid) -> Vec<(Option<u8>, Vec<bool>)> {
    let mut out = Vec::new();
    for row in grid.get_grid().iter() {
        for cell in row.iter() {
            match cell {
                Cell::Solved(d) => out.push((Some(*d), Vec::new())),
                Cell::Candidates(c) => out.push((None, c.to_vec())),
            }
        }
    }
    out
}

fn is_consistent(grid: &Grid) -> bool {
    let cells = grid.get_grid();
    for r1 in 0..9 {
        for c1 in 0..9 {
            if let Cell::Candidates(cands) = cells[r1][c1] {
                for r2 in 0..9 {
                    for c2 in 0..9 {
                        let peer = r1 == r2 || c1 == c2 || (r1 / 3 == r2 / 3 && c1 / 3 == c2 / 3);
                        if let Cell::Solved(d) = cells[r2][c2] {
                            if peer && cands[(d - 1) as usize] {
                                return false;
                            }
                        }
                    }
                }
            }
        }
    }
    true
}

fn open_count(grid: &Grid) -> usize {
    grid.get_grid()
        .iter()
        .flat_map(|r| r.iter())
        .filter(|c| matches!(c, Cell::Candidates(_)))
        .count()
}

fn run(grid: &mut Grid) -> Vec<SolutionStep> {
    grid.solve(|_g: &Grid| {}).collect_steps()
}

fn with_cell_open(board: &str, row: usize, col: usize) -> String {
    let mut lines: Vec<String> = board.lines().map(|l| l.to_string()).collect();
    let mut chars: Vec<char> = lines[row].chars().collect();
    chars[col] = '.';
    lines[row] = chars.into_iter().collect();
    lines.join("\n")
}

#[test]
fn parse_reads_givens_and_prunes_peers() {
    let grid = Grid::parse(EASY).unwrap();
    let cells = grid.get_grid();
    assert!(matches!(cells[0][2], Cell::Solved(3)));
    assert!(matches!(cells[8][4], Cell::Solved(1)));
    match cells[0][0] {
        Cell::Candidates(c) => {
            // row 0 has 3, 2, 6; column 0 has 9, 7, 8; box 0 has 3, 9, 1
            assert_eq!(c, [false, false, false, true, true, false, false, false, false]);
        }
        Cell::Solved(_) => panic!("open square read as solved"),
    }
    assert!(!grid.printtty());
    assert!(is_consistent(&grid));
}

#[test]
fn parse_skips_separators_and_pipes() {
    let text = "\
..3|.2.|6..
9..|3.5|..1
..1|8.6|4..
---+---+---
..8|1.2|9..
7..|...|..8
..6|7.8|2..
---+---+---
..2|6.9|5..
8..|2.3|..9
..5|.1.|3..";
    let decorated = Grid::parse(text).unwrap();
    let plain = Grid::parse(EASY).unwrap();
    assert_eq!(snapshot(&decorated), snapshot(&plain));
}

#[test]
fn parse_treats_zero_and_other_characters_as_open() {
    let zeros = Grid::parse(EASY).unwrap();
    let dots = Grid::parse(&EASY.replace('0', ".")).unwrap();
    let spaces = Grid::parse(&EASY.replace('0', " ")).unwrap();
    assert_eq!(snapshot(&zeros), snapshot(&dots));
    assert_eq!(snapshot(&zeros), snapshot(&spaces));
    assert_eq!(open_count(&zeros), 81 - 32);
}

#[test]
fn parse_rejects_eight_lines() {
    let text: Vec<&str> = EASY.lines().take(8).collect();
    let r = Grid::parse(&text.join("\n"));
    assert!(matches!(r, Err(ParseError::BadLength)));
}

#[test]
fn parse_rejects_ten_lines() {
    let text = format!("{}\n000000000", EASY);
    assert!(matches!(Grid::parse(&text), Err(ParseError::BadLength)));
}

#[test]
fn parse_rejects_trailing_newline_as_extra_line() {
    let text = format!("{}\n", EASY);
    assert!(matches!(Grid::parse(&text), Err(ParseError::BadLength)));
}

#[test]
fn parse_rejects_empty_text() {
    assert!(matches!(Grid::parse(""), Err(ParseError::BadLength)));
}

#[test]
fn parse_rejects_ten_characters() {
    let text = EASY.replacen("003020600", "0030206001", 1);
    assert!(matches!(Grid::parse(&text), Err(ParseError::BadWidth)));
}

#[test]
fn parse_rejects_short_line() {
    let text = EASY.replacen("700000008", "70000008", 1);
    let r = Grid::parse(&text);
    assert!(matches!(r, Err(ParseError::BadWidth)));
    assert_eq!(r.err(), Some(ParseError::BadWidth));
}

#[test]
fn pipes_do_not_count_toward_width() {
    let text = EASY.replacen("003020600", "|003|020|600|", 1);
    assert!(Grid::parse(&text).is_ok());
}

#[test]
fn one_open_square_gives_one_step() {
    let text = with_cell_open(EASY_SOLVED, 4, 6);
    let mut grid = Grid::parse(&text).unwrap();
    assert_eq!(open_count(&grid), 1);
    let naked = grid.find_naked_single().unwrap();
    assert_eq!(naked.position, (4, 6));
    assert_eq!(naked.digit, 1);
    assert_eq!(naked.message, "Found naked single for 1 at r5c7!");
    let steps = run(&mut grid);
    assert_eq!(steps.len(), 1);
    assert_eq!(steps[0].position, (4, 6));
    assert_eq!(steps[0].digit, 1);
    assert_eq!(open_count(&grid), 0);
}

#[test]
fn one_open_square_is_found_in_its_box_first() {
    let text = with_cell_open(EASY_SOLVED, 0, 0);
    let mut grid = Grid::parse(&text).unwrap();
    let hidden = grid.find_hidden_single().unwrap();
    assert_eq!(hidden.position, (0, 0));
    assert_eq!(hidden.digit, 4);
    assert_eq!(hidden.message, "Found hidden single for 4 in box 1 at position r1c1");
    let mut it = grid.solve(|_g: &Grid| {});
    let first = it.next().unwrap();
    assert_eq!(first.message, "Found hidden single for 4 in box 1 at position r1c1");
    assert!(it.next().is_none());
    assert!(it.next().is_none());
}

#[test]
fn hidden_single_in_column_message() {
    // (4, 0) can only be 7 and (4, 3) only 5; column 0 is searched before
    // box 3 and row 4, and it holds 7 at one place only.
    let text = with_cell_open(&with_cell_open(EASY_SOLVED, 4, 0), 4, 3);
    let grid = Grid::parse(&text).unwrap();
    let hidden = grid.find_hidden_single().unwrap();
    assert_eq!(hidden.position, (4, 0));
    assert_eq!(hidden.digit, 7);
    assert_eq!(hidden.message, "Found hidden single for 7 in c1 at r5");
}

#[test]
fn hidden_single_in_row_message() {
    // (0, 3) can only be 9 and (0, 4) only 2; row 0 comes before column 0
    // and the digits go in ascending order.
    let text = with_cell_open(&with_cell_open(EASY_SOLVED, 0, 3), 0, 4);
    let grid = Grid::parse(&text).unwrap();
    let hidden = grid.find_hidden_single().unwrap();
    assert_eq!(hidden.position, (0, 4));
    assert_eq!(hidden.digit, 2);
    assert_eq!(hidden.message, "Found hidden single for 2 in r1 at c5");
}

#[test]
fn easy_puzzle_is_solved_completely() {
    let mut grid = Grid::parse(EASY).unwrap();
    let steps = run(&mut grid);
    assert_eq!(steps.len(), 81 - 32);
    assert_eq!(open_count(&grid), 0);
    let solved = Grid::parse(EASY_SOLVED).unwrap();
    assert_eq!(snapshot(&grid), snapshot(&solved));
}

#[test]
fn hard_puzzle_stalls_with_open_squares() {
    let mut grid = Grid::parse(HARD).unwrap();
    let steps = run(&mut grid);
    assert!(open_count(&grid) > 0);
    assert_eq!(steps.len(), 81 - 21 - open_count(&grid));
    assert!(grid.find_hidden_single().is_none());
    assert!(grid.find_naked_single().is_none());
    assert!(is_consistent(&grid));
}

#[test]
fn solved_board_yields_nothing() {
    let mut grid = Grid::parse(EASY_SOLVED).unwrap();
    let mut it = grid.solve(|_g: &Grid| {});
    assert!(it.next().is_none());
    assert!(run(&mut grid).is_empty());
}

#[test]
fn passes_over_the_same_text_agree() {
    for text in [EASY, HARD] {
        let mut a = Grid::parse(text).unwrap();
        let mut b = Grid::parse(text).unwrap();
        b.settty(true);
        let sa = run(&mut a);
        let sb = run(&mut b);
        assert_eq!(sa.len(), sb.len());
        for (x, y) in sa.iter().zip(sb.iter()) {
            assert_eq!(x.position, y.position);
            assert_eq!(x.digit, y.digit);
            assert_eq!(x.message, y.message);
        }
    }
}

#[test]
fn pass_never_exceeds_81_steps() {
    let mut grid = Grid::default();
    let steps = run(&mut grid);
    assert!(steps.len() <= 81);
    for text in [EASY, HARD, EASY_SOLVED] {
        let mut g = Grid::parse(text).unwrap();
        assert!(run(&mut g).len() <= 81);
    }
}

#[test]
fn empty_board_has_no_deduction() {
    let mut grid = Grid::default();
    assert!(grid.find_hidden_single().is_none());
    assert!(grid.find_naked_single().is_none());
    assert!(run(&mut grid).is_empty());
    assert_eq!(open_count(&grid), 81);
}

#[test]
fn observer_sees_consistent_grid_before_each_placement() {
    let mut grid = Grid::parse(EASY).unwrap();
    let seen = RefCell::new(Vec::new());
    let steps = grid
        .solve(|g: &Grid| {
            assert!(is_consistent(g));
            seen.borrow_mut().push(open_count(g));
        })
        .collect_steps();
    let seen = seen.into_inner();
    assert_eq!(seen.len(), steps.len());
    for (k, open) in seen.iter().enumerate() {
        assert_eq!(*open, 81 - 32 - k);
    }
    assert!(is_consistent(&grid));
}

#[test]
fn remove_candidates_twice_is_once() {
    let mut once = Grid::parse(HARD).unwrap();
    once.remove_candidates((4, 4), 6);
    let mut twice = Grid::parse(HARD).unwrap();
    twice.remove_candidates((4, 4), 6);
    twice.remove_candidates((4, 4), 6);
    assert_eq!(snapshot(&once), snapshot(&twice));
    let untouched = Grid::parse(HARD).unwrap();
    assert_ne!(snapshot(&once), snapshot(&untouched));
}

#[test]
fn remove_candidates_reaches_row_column_and_box_only() {
    let mut grid = Grid::default();
    grid.remove_candidates((4, 4), 5);
    let cells = grid.get_grid();
    for r in 0..9 {
        for c in 0..9 {
            let peer = r == 4 || c == 4 || (r / 3 == 1 && c / 3 == 1);
            match cells[r][c] {
                Cell::Candidates(cands) => assert_eq!(cands[4], !peer),
                Cell::Solved(_) => panic!("no square was solved"),
            }
        }
    }
}

#[test]
fn place_digit_solves_and_propagates() {
    let mut grid = Grid::default();
    grid.place_digit((0, 0), 7);
    let cells = grid.get_grid();
    assert!(matches!(cells[0][0], Cell::Solved(7)));
    for k in 1..9 {
        assert!(matches!(cells[0][k], Cell::Candidates(c) if !c[6]));
        assert!(matches!(cells[k][0], Cell::Candidates(c) if !c[6]));
    }
    assert!(matches!(cells[2][2], Cell::Candidates(c) if !c[6]));
    assert!(matches!(cells[4][4], Cell::Candidates(c) if c[6]));
    assert!(is_consistent(&grid));
}

#[test]
fn box_coordinates_go_column_by_column() {
    assert_eq!(Grid::get_coords_in_box(0, 0), (0, 0));
    assert_eq!(Grid::get_coords_in_box(0, 1), (1, 0));
    assert_eq!(Grid::get_coords_in_box(0, 3), (0, 1));
    assert_eq!(Grid::get_coords_in_box(5, 8), (5, 8));
    assert_eq!(Grid::get_coords_in_box(7, 4), (7, 4));
}

#[test]
fn settty_sets_flag_only() {
    let mut grid = Grid::parse(EASY).unwrap();
    let before = snapshot(&grid);
    grid.settty(true);
    assert!(grid.printtty());
    assert_eq!(snapshot(&grid), before);
    grid.settty(false);
    assert!(!grid.printtty());
}

#[test]
fn cell_part_ranges() {
    assert_eq!(CellPart::Top.range(), 1..4);
    assert_eq!(CellPart::Middle.range(), 4..7);
    assert_eq!(CellPart::Bottom.range(), 7..10);
}

#[test]
fn cell_part_text() {
    let solved = Cell::Solved(5);
    assert_eq!(solved.part_text(&CellPart::Top), "   ");
    assert_eq!(solved.part_text(&CellPart::Middle), " 5 ");
    assert_eq!(solved.part_text(&CellPart::Bottom), "   ");
    let open = Cell::Candidates([true, false, true, false, false, true, true, true, false]);
    assert_eq!(open.part_text(&CellPart::Top), "1 3");
    assert_eq!(open.part_text(&CellPart::Middle), "  6");
    assert_eq!(open.part_text(&CellPart::Bottom), "78 ");
}

#[test]
fn grid_to_optional_lists_solved_digits() {
    let grid = Grid::parse(EASY).unwrap();
    let rows = grid_to_optional(&grid);
    assert_eq!(rows.len(), 9);
    assert_eq!(rows[0], vec![None, None, Some(3), None, Some(2), None, Some(6), None, None]);
    assert_eq!(rows[4], vec![Some(7), None, None, None, None, None, None, None, Some(8)]);
}
