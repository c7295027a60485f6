use sudoku_cover::matrix::{cover, most_constrained, uncover, Matrix};
use sudoku_cover::model::{Constraint, SquareChoice};
use sudoku_cover::codec::unpack;

fn all_constraints() -> Vec<Constraint> {
    let mut cs = Vec::new();
    for a in 0..9u8 {
        for b in 0..9u8 {
            cs.push(Constraint::Square { row: a, col: b });
            cs.push(Constraint::Row { row: a, value: b + 1 });
            cs.push(Constraint::Column { col: a, value: b + 1 });
            cs.push(Constraint::Block { block: a, value: b + 1 });
        }
    }
    cs
}

fn snapshot(m: &Matrix) -> Vec<(Constraint, Option<Vec<SquareChoice>>)> {
    all_constraints()
        .into_iter()
        .map(|c| (c, m.col_choices(c)))
        .collect()
}

fn set_equal(a: &[SquareChoice], b: &[SquareChoice]) -> bool {
    a.len() == b.len() && a.iter().all(|x| b.contains(x)) && b.iter().all(|x| a.contains(x))
}

fn assert_snapshots_set_equal(
    before: &[(Constraint, Option<Vec<SquareChoice>>)],
    after: &[(Constraint, Option<Vec<SquareChoice>>)],
) {
    assert_eq!(before.len(), after.len());
    for ((c1, col1), (c2, col2)) in before.iter().zip(after.iter()) {
        assert_eq!(c1, c2);
        match (col1, col2) {
            (None, None) => {}
            (Some(v1), Some(v2)) => assert!(set_equal(v1, v2), "column differs: {:?}", c1),
            _ => panic!("openness differs: {:?}", c1),
        }
    }
}

fn empty_grid_matrix() -> Matrix {
    let input = ".........\n".repeat(9);
    let (_state, m) = unpack(&input).unwrap();
    m
}

#[test]
fn cover_removes_column_and_conflicts() {
    let mut m = empty_grid_matrix();
    let header = Constraint::Square { row: 4, col: 4 };
    assert_eq!(m.col_choices(header).unwrap().len(), 9);
    let removals = cover(header, &mut m);
    assert_eq!(removals.len(), 9);
    assert!(m.col_choices(header).is_none());
    // The row column for any value lost exactly the candidate at (4, 4).
    let col = m.col_choices(Constraint::Row { row: 4, value: 7 }).unwrap();
    assert_eq!(col.len(), 8);
    assert!(col
        .iter()
        .all(|ch| !(ch.row == 4 && ch.col == 4)));
}

#[test]
fn cover_then_uncover_restores_matrix() {
    let mut m = empty_grid_matrix();
    let before = snapshot(&m);
    let open_before = m.open_len();
    let header = Constraint::Block { block: 0, value: 3 };
    let removals = cover(header, &mut m);
    assert!(m.open_len() == open_before - 1);
    uncover(header, &removals, &mut m);
    assert_eq!(m.open_len(), open_before);
    assert_snapshots_set_equal(&before, &snapshot(&m));
}

#[test]
fn nested_covers_undone_in_reverse_restore_matrix() {
    let mut m = empty_grid_matrix();
    let before = snapshot(&m);
    let h1 = Constraint::Square { row: 0, col: 0 };
    let h2 = Constraint::Row { row: 0, value: 1 };
    let h3 = Constraint::Column { col: 3, value: 5 };
    let r1 = cover(h1, &mut m);
    let r2 = cover(h2, &mut m);
    let r3 = cover(h3, &mut m);
    uncover(h3, &r3, &mut m);
    uncover(h2, &r2, &mut m);
    uncover(h1, &r1, &mut m);
    assert_snapshots_set_equal(&before, &snapshot(&m));
}

#[test]
fn most_constrained_prefers_fewest_choices() {
    // One given thins the columns that share its units.
    let (_state, m) = unpack("1........\n").unwrap();
    let picked = most_constrained(&m);
    let len_picked = m.col_choices(picked).unwrap().len();
    for c in all_constraints() {
        if let Some(col) = m.col_choices(c) {
            assert!(len_picked <= col.len());
        }
    }
    // Ties break deterministically: on a fresh empty grid the first open
    // column in index order is picked.
    let empty = empty_grid_matrix();
    let first = most_constrained(&empty);
    assert_eq!(first, Constraint::Square { row: 0, col: 0 });
    // Selection does not change the matrix.
    let snap = snapshot(&empty);
    let _ = most_constrained(&empty);
    assert_snapshots_set_equal(&snap, &snapshot(&empty));
}
