use sudoku_cover::codec::{pack, unpack, GridError};
use sudoku_cover::model::{Constraint, SquareChoice};
use sudoku_cover::search::solve;

fn join_lines(lines: &[String]) -> String {
    let mut out = String::new();
    for line in lines {
        out.push_str(line);
        out.push('\n');
    }
    out
}

fn assert_full_valid_grid(lines: &[String]) {
    assert_eq!(lines.len(), 9);
    let grid: Vec<Vec<char>> = lines.iter().map(|l| l.chars().collect()).collect();
    for row in &grid {
        assert_eq!(row.len(), 9);
        for &ch in row {
            assert!(('1'..='9').contains(&ch), "unassigned or bad cell: {}", ch);
        }
    }
    for r in 0..9 {
        for v in '1'..='9' {
            assert_eq!(grid[r].iter().filter(|&&c| c == v).count(), 1);
        }
    }
    for c in 0..9 {
        for v in '1'..='9' {
            assert_eq!((0..9).filter(|&r| grid[r][c] == v).count(), 1);
        }
    }
    for b in 0..9 {
        let (r0, c0) = (3 * (b / 3), 3 * (b % 3));
        for v in '1'..='9' {
            let n = (0..9).filter(|&k| grid[r0 + k / 3][c0 + k % 3] == v).count();
            assert_eq!(n, 1);
        }
    }
}

#[test]
fn solves_reference_puzzle() {
    let input = "...84...9\n..1.....5\n8...2146.\n7.8....9.\n.........\n.5....3.1\n.2491...7\n9.....5..\n3...84...\n";
    let (mut state, mut constraints) = unpack(input).unwrap();
    assert!(solve(&mut state, &mut constraints));
    let lines = pack(&state);
    assert_full_valid_grid(&lines);
    // The givens are preserved in the solution.
    for (r, given_line) in input.lines().enumerate() {
        for (c, ch) in given_line.chars().enumerate() {
            if ch != '.' {
                assert_eq!(lines[r].as_bytes()[c] as char, ch);
            }
        }
    }
}

#[test]
fn solves_empty_grid() {
    let input = ".........\n".repeat(9);
    let (mut state, mut constraints) = unpack(&input).unwrap();
    assert_eq!(state.len(), 0);
    assert!(solve(&mut state, &mut constraints));
    assert_eq!(state.len(), 81);
    let lines = pack(&state);
    assert_full_valid_grid(&lines);
}

#[test]
fn duplicate_given_in_row_fails_and_restores() {
    // Two identical givens deliberately placed in the same row.
    let input = "5.5......\n.........\n.........\n.........\n.........\n.........\n.........\n.........\n.........\n";
    let (mut state, mut constraints) = unpack(input).unwrap();
    let open_before = constraints.open_len();
    let state_before = state.len();
    assert!(!solve(&mut state, &mut constraints));
    assert_eq!(constraints.open_len(), open_before);
    assert_eq!(state.len(), state_before);
    // Re-running behaves identically: failure again, nothing leaked.
    assert!(!solve(&mut state, &mut constraints));
    assert_eq!(constraints.open_len(), open_before);
    assert_eq!(state.len(), state_before);
}

#[test]
fn cell_without_candidates_fails_and_restores() {
    // Cell (0, 8) needs a 9 to finish its row, but its column already has
    // one: no candidate remains, though no two givens conflict directly.
    let input = "12345678.\n........9\n";
    let (mut state, mut constraints) = unpack(input).unwrap();
    let open_before = constraints.open_len();
    let state_before = state.len();
    assert!(!solve(&mut state, &mut constraints));
    assert_eq!(constraints.open_len(), open_before);
    assert_eq!(state.len(), state_before);
}

#[test]
fn round_trip_of_solved_grid() {
    let input = ".........\n".repeat(9);
    let (mut state, mut constraints) = unpack(&input).unwrap();
    assert!(solve(&mut state, &mut constraints));
    let text = join_lines(&pack(&state));
    let (state2, _constraints2) = unpack(&text).unwrap();
    assert_eq!(state2.len(), 81);
    // Decoding the rendering yields the same 81 cell values.
    assert_eq!(pack(&state2), pack(&state));
    for ch in &state2 {
        let orig = state
            .iter()
            .find(|o| o.row == ch.row && o.col == ch.col)
            .unwrap();
        assert_eq!(orig.value, ch.value);
    }
}

#[test]
fn malformed_tenth_line_rejected() {
    let mut input = ".........\n".repeat(9);
    input.push_str("extra");
    assert!(matches!(unpack(&input), Err(GridError::MalformedInput)));
}

#[test]
fn malformed_wide_line_rejected() {
    let input = "..........\n"; // ten characters on one line
    assert!(matches!(unpack(input), Err(GridError::MalformedInput)));
}

#[test]
fn short_input_accepted_as_empty_cells() {
    // Fewer rows and shorter lines are within contract: missing cells are empty.
    let (state, _m) = unpack("5\n.3\n").unwrap();
    assert_eq!(
        state,
        vec![
            SquareChoice { row: 0, col: 0, value: 5 },
            SquareChoice { row: 1, col: 1, value: 3 },
        ]
    );
}

#[test]
fn zero_digit_is_an_empty_cell() {
    let (state, _m) = unpack("0........\n").unwrap();
    assert_eq!(state.len(), 0);
}

#[test]
fn pack_renders_givens_and_dots() {
    let state = vec![
        SquareChoice { row: 0, col: 0, value: 5 },
        SquareChoice { row: 8, col: 8, value: 9 },
    ];
    let lines = pack(&state);
    assert_eq!(lines.len(), 9);
    assert_eq!(lines[0], "5........");
    for r in 1..8 {
        assert_eq!(lines[r], ".........");
    }
    assert_eq!(lines[8], "........9");
}

#[test]
fn pack_last_assignment_wins() {
    let state = vec![
        SquareChoice { row: 2, col: 3, value: 1 },
        SquareChoice { row: 2, col: 3, value: 7 },
    ];
    let lines = pack(&state);
    assert_eq!(lines[2], "...7.....");
}

#[test]
fn unpack_builds_open_columns_only() {
    let (_state, m) = unpack("123456789\n").unwrap();
    // Every cell of row 0 is given: its square constraints are closed.
    for c in 0..9u8 {
        assert!(m.col_choices(Constraint::Square { row: 0, col: c }).is_none());
        assert!(m.col_choices(Constraint::Row { row: 0, value: c + 1 }).is_none());
    }
    // An untouched cell elsewhere is open with nine candidates minus the
    // column/block exclusions; cell (8, 0) loses only value 1 (column) so it
    // keeps 8 candidates.
    let col = m
        .col_choices(Constraint::Square { row: 8, col: 0 })
        .unwrap();
    assert_eq!(col.len(), 8);
    assert!(col.iter().all(|ch| ch.value != 1));
}
