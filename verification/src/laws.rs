//! The library's stated properties, proved as theorems over the codec and
//! the search: the codec round trip, the concrete reading of a sound state,
//! and the counting argument for a state that covers every cell.

use vstd::prelude::*;
use vstd::relations::injective_on;
use vstd::set_lib::{lemma_int_range, lemma_map_size, lemma_subset_equality, set_int_range};

use crate::codec::{
    cell_value, clue_value, digit_char, initial_matrix, is_clue, open_choice, parse_givens,
    parse_ok, render_line, solved_by,
};
use crate::model::{
    block_of, block_con_of, column_of, pairwise_ok, row_of, shares_constraint, square_of, touches,
    valid_choice, valid_constraint, Constraint, SquareChoice,
};
use crate::search::{committed_from, exact_cover};

verus! {

/// The state assigns a value to cell `(r, c)`.
pub open spec fn covers_cell(s: Seq<SquareChoice>, r: int, c: int) -> bool {
    exists|i: int| 0 <= i < s.len() && (#[trigger] s[i]).row == r && s[i].col == c
}

/// The full rendering of a state from row `r` on: each line followed by a
/// newline.
pub open spec fn rendered_from(s: Seq<SquareChoice>, r: int) -> Seq<char>
    decreases 9 - r,
{
    if r < 0 || r >= 9 {
        Seq::empty()
    } else {
        render_line(s, r) + seq!['\n'] + rendered_from(s, r + 1)
    }
}

/// The full rendering of a state: nine lines, each ended by a newline.
pub open spec fn rendered_text(s: Seq<SquareChoice>) -> Seq<char> {
    rendered_from(s, 0)
}

/// The choices of output row `r`, in column order, as the parser would
/// produce them for a fully assigned row.
pub open spec fn grid_row(s: Seq<SquareChoice>, r: int) -> Seq<SquareChoice> {
    Seq::new(
        9,
        |c: int|
            SquareChoice { row: r as u8, col: c as u8, value: cell_value(s, r, c) as u8 },
    )
}

/// The choices of output rows `r` through `8`, row-major.
pub open spec fn grid_rows(s: Seq<SquareChoice>, r: int) -> Seq<SquareChoice>
    decreases 9 - r,
{
    if r < 0 || r >= 9 {
        Seq::empty()
    } else {
        grid_row(s, r) + grid_rows(s, r + 1)
    }
}

/// The digit character of an assigned cell value parses back to that value.
proof fn lemma_digit_char_clue(v: int)
    requires
        1 <= v <= 9,
    ensures
        is_clue(digit_char(v)),
        clue_value(digit_char(v)) as int == v,
{
}

/// A cell with at least one assignment shows a digit value.
proof fn lemma_cell_value_covered(s: Seq<SquareChoice>, r: int, c: int)
    requires
        forall|i: int| 0 <= i < s.len() ==> valid_choice(#[trigger] s[i]),
        covers_cell(s, r, c),
    ensures
        1 <= cell_value(s, r, c) <= 9,
    decreases s.len(),
{
    let i = choose|i: int| 0 <= i < s.len() && (#[trigger] s[i]).row == r && s[i].col == c;
    if s.last().row == r && s.last().col == c {
    } else {
        assert(i < s.len() - 1);
        assert(s.drop_last()[i] == s[i]);
        assert(covers_cell(s.drop_last(), r, c));
        lemma_cell_value_covered(s.drop_last(), r, c);
    }
}

/// Parsing a run of clue characters at `(r, c)`, followed by a newline and
/// further text, yields one given per character and continues on the next
/// row.
proof fn lemma_parse_clue_run(line: Seq<char>, rest: Seq<char>, r: int, c: int)
    requires
        0 <= r < 9,
        0 <= c,
        c + line.len() == 9,
        forall|k: int| 0 <= k < line.len() ==> is_clue(#[trigger] line[k]),
    ensures
        parse_ok(line + seq!['\n'] + rest, r, c) == parse_ok(rest, r + 1, 0),
        parse_givens(line + seq!['\n'] + rest, r, c) == Seq::new(
            line.len() as nat,
            |k: int|
                SquareChoice { row: r as u8, col: (c + k) as u8, value: clue_value(line[k]) },
        ) + parse_givens(rest, r + 1, 0),
    decreases line.len(),
{
    let t = line + seq!['\n'] + rest;
    if line.len() == 0 {
        assert(t =~= seq!['\n'] + rest);
        assert(t[0] == '\n');
        assert(t.skip(1) =~= rest);
        assert(Seq::new(0, |k: int|
            SquareChoice { row: r as u8, col: (c + k) as u8, value: clue_value(line[k]) })
            + parse_givens(rest, r + 1, 0) =~= parse_givens(rest, r + 1, 0));
    } else {
        assert(t[0] == line[0]);
        assert(is_clue(line[0]));
        assert(t[0] != '\n') by {
            assert(('\n' as u32) == 10);
        }
        assert(t.skip(1) =~= line.skip(1) + seq!['\n'] + rest);
        lemma_parse_clue_run(line.skip(1), rest, r, c + 1);
        let first = SquareChoice { row: r as u8, col: c as u8, value: clue_value(line[0]) };
        assert(parse_givens(t, r, c) == seq![first] + parse_givens(t.skip(1), r, c + 1));
        let tail_new = Seq::new(
            line.skip(1).len() as nat,
            |k: int|
                SquareChoice {
                    row: r as u8,
                    col: (c + 1 + k) as u8,
                    value: clue_value(line.skip(1)[k]),
                },
        );
        let full_new = Seq::new(
            line.len() as nat,
            |k: int|
                SquareChoice { row: r as u8, col: (c + k) as u8, value: clue_value(line[k]) },
        );
        assert(full_new =~= seq![first] + tail_new) by {
            assert forall|k: int| 0 <= k < line.len() implies full_new[k] == (seq![first]
                + tail_new)[k] by {
                if k > 0 {
                    assert(line.skip(1)[k - 1] == line[k]);
                }
            }
        }
        assert(seq![first] + (tail_new + parse_givens(rest, r + 1, 0)) =~= (seq![first] + tail_new)
            + parse_givens(rest, r + 1, 0));
    }
}

/// Rendering rows `r` through `8` of a fully assigned state and parsing the
/// result from `(r, 0)` yields exactly those rows' cells.
proof fn lemma_parse_rendered_from(s: Seq<SquareChoice>, r: int)
    requires
        0 <= r <= 9,
        forall|i: int| 0 <= i < s.len() ==> valid_choice(#[trigger] s[i]),
        forall|r2: int, c: int| 0 <= r2 < 9 && 0 <= c < 9 ==> covers_cell(s, r2, c),
    ensures
        parse_ok(rendered_from(s, r), r, 0),
        parse_givens(rendered_from(s, r), r, 0) == grid_rows(s, r),
    decreases 9 - r,
{
    if r == 9 {
        assert(rendered_from(s, r) == Seq::<char>::empty());
        assert(grid_rows(s, r) == Seq::<SquareChoice>::empty());
    } else {
        let line = render_line(s, r);
        assert(line.len() == 9);
        assert forall|k: int| 0 <= k < line.len() implies is_clue(#[trigger] line[k]) by {
            lemma_cell_value_covered(s, r, k);
            lemma_digit_char_clue(cell_value(s, r, k));
        }
        lemma_parse_rendered_from(s, r + 1);
        lemma_parse_clue_run(line, rendered_from(s, r + 1), r, 0);
        assert(rendered_from(s, r) == line + seq!['\n'] + rendered_from(s, r + 1));
        let parsed_line = Seq::new(
            line.len() as nat,
            |k: int|
                SquareChoice { row: r as u8, col: (0 + k) as u8, value: clue_value(line[k]) },
        );
        assert(parsed_line =~= grid_row(s, r)) by {
            assert forall|k: int| 0 <= k < 9 implies parsed_line[k] == grid_row(s, r)[k] by {
                lemma_cell_value_covered(s, r, k);
                lemma_digit_char_clue(cell_value(s, r, k));
            }
        }
    }
}

/// The length and contents of the row-major cell listing.
proof fn lemma_grid_rows_index(s: Seq<SquareChoice>, r0: int, r: int, c: int)
    requires
        0 <= r0 <= 9,
        r0 <= r < 9,
        0 <= c < 9,
    ensures
        grid_rows(s, r0).len() == 9 * (9 - r0),
        grid_rows(s, r0)[9 * (r - r0) + c] == (SquareChoice {
            row: r as u8,
            col: c as u8,
            value: cell_value(s, r, c) as u8,
        }),
    decreases 9 - r0,
{
    if r0 < 9 {
        if r == r0 {
            lemma_grid_rows_len(s, r0 + 1);
            assert(grid_rows(s, r0)[c] == grid_row(s, r0)[c]);
        } else {
            lemma_grid_rows_index(s, r0 + 1, r, c);
            assert(grid_rows(s, r0)[9 * (r - r0) + c] == grid_rows(s, r0 + 1)[9 * (r - r0 - 1)
                + c]);
        }
    }
}

proof fn lemma_grid_rows_len(s: Seq<SquareChoice>, r0: int)
    requires
        0 <= r0 <= 9,
    ensures
        grid_rows(s, r0).len() == 9 * (9 - r0),
    decreases 9 - r0,
{
    if r0 < 9 {
        lemma_grid_rows_len(s, r0 + 1);
    }
}

/// Round trip of the grid codec: rendering a fully assigned state as text
/// and decoding the text again succeeds and yields the same 81 cell values,
/// row-major, each cell once.
pub proof fn lemma_round_trip(s: Seq<SquareChoice>)
    requires
        forall|i: int| 0 <= i < s.len() ==> valid_choice(#[trigger] s[i]),
        forall|r: int, c: int| 0 <= r < 9 && 0 <= c < 9 ==> covers_cell(s, r, c),
    ensures
        parse_ok(rendered_text(s), 0, 0),
        parse_givens(rendered_text(s), 0, 0).len() == 81,
        forall|r: int, c: int|
            0 <= r < 9 && 0 <= c < 9 ==> parse_givens(rendered_text(s), 0, 0)[9 * r + c]
                == (SquareChoice { row: r as u8, col: c as u8, value: cell_value(s, r, c) as u8 }),
{
    lemma_parse_rendered_from(s, 0);
    lemma_grid_rows_len(s, 0);
    assert forall|r: int, c: int| 0 <= r < 9 && 0 <= c < 9 implies parse_givens(
        rendered_text(s),
        0,
        0,
    )[9 * r + c] == SquareChoice {
        row: r as u8,
        col: c as u8,
        value: cell_value(s, r, c) as u8,
    } by {
        lemma_grid_rows_index(s, 0, r, c);
    }
}

/// The concrete reading of a pairwise-sound state: no two entries occupy the
/// same cell, repeat a value in a row, in a column, or in a block.
pub proof fn lemma_sound_state_reading(s: Seq<SquareChoice>)
    requires
        forall|i: int| 0 <= i < s.len() ==> valid_choice(#[trigger] s[i]),
        pairwise_ok(s),
    ensures
        forall|i: int, j: int|
            0 <= i < s.len() && 0 <= j < s.len() && i != j ==> !((#[trigger] s[i]).row
                == (#[trigger] s[j]).row && s[i].col == s[j].col),
        forall|i: int, j: int|
            0 <= i < s.len() && 0 <= j < s.len() && i != j ==> !((#[trigger] s[i]).row
                == (#[trigger] s[j]).row && s[i].value == s[j].value),
        forall|i: int, j: int|
            0 <= i < s.len() && 0 <= j < s.len() && i != j ==> !((#[trigger] s[i]).col
                == (#[trigger] s[j]).col && s[i].value == s[j].value),
        forall|i: int, j: int|
            0 <= i < s.len() && 0 <= j < s.len() && i != j ==> !(block_of(
                (#[trigger] s[i]).row,
                s[i].col,
            ) == block_of((#[trigger] s[j]).row, s[j].col) && s[i].value == s[j].value),
{
    assert forall|i: int, j: int|
        0 <= i < s.len() && 0 <= j < s.len() && i != j implies !((#[trigger] s[i]).row
        == (#[trigger] s[j]).row && s[i].col == s[j].col) by {
        if s[i].row == s[j].row && s[i].col == s[j].col {
            assert(touches(s[i], square_of(s[i])) && touches(s[j], square_of(s[i])));
            assert(shares_constraint(s[i], s[j]));
        }
    }
    assert forall|i: int, j: int|
        0 <= i < s.len() && 0 <= j < s.len() && i != j implies !((#[trigger] s[i]).row
        == (#[trigger] s[j]).row && s[i].value == s[j].value) by {
        if s[i].row == s[j].row && s[i].value == s[j].value {
            assert(touches(s[i], row_of(s[i])) && touches(s[j], row_of(s[i])));
            assert(shares_constraint(s[i], s[j]));
        }
    }
    assert forall|i: int, j: int|
        0 <= i < s.len() && 0 <= j < s.len() && i != j implies !((#[trigger] s[i]).col
        == (#[trigger] s[j]).col && s[i].value == s[j].value) by {
        if s[i].col == s[j].col && s[i].value == s[j].value {
            assert(touches(s[i], column_of(s[i])) && touches(s[j], column_of(s[i])));
            assert(shares_constraint(s[i], s[j]));
        }
    }
    assert forall|i: int, j: int|
        0 <= i < s.len() && 0 <= j < s.len() && i != j implies !(block_of(
        (#[trigger] s[i]).row,
        s[i].col,
    ) == block_of((#[trigger] s[j]).row, s[j].col) && s[i].value == s[j].value) by {
        if block_of(s[i].row, s[i].col) == block_of(s[j].row, s[j].col) && s[i].value
            == s[j].value {
            assert(touches(s[i], block_con_of(s[i])) && touches(s[j], block_con_of(s[i])));
            assert(shares_constraint(s[i], s[j]));
        }
    }
}

/// Every value appears in every row of a complete, conflict-free
/// assignment: nine assigned cells with pairwise distinct values exhaust
/// the nine values.
proof fn lemma_row_has_value(g: Seq<SquareChoice>, r0: int, val: int)
    requires
        forall|i: int| 0 <= i < g.len() ==> valid_choice(#[trigger] g[i]),
        pairwise_ok(g),
        forall|r: int, c: int| 0 <= r < 9 && 0 <= c < 9 ==> covers_cell(g, r, c),
        0 <= r0 < 9,
        1 <= val <= 9,
    ensures
        exists|i: int| 0 <= i < g.len() && (#[trigger] g[i]).row == r0 && g[i].value == val,
{
    let pick = |c: int|
        choose|i: int| 0 <= i < g.len() && (#[trigger] g[i]).row == r0 && g[i].col == c;
    let f = |c: int| g[pick(c)].value as int;
    assert forall|c: int| set_int_range(0, 9).contains(c) implies 0 <= pick(c) < g.len()
        && g[pick(c)].row == r0 && g[pick(c)].col == c by {
        assert(covers_cell(g, r0, c));
    }
    assert(injective_on(f, set_int_range(0, 9))) by {
        assert forall|c1: int, c2: int|
            set_int_range(0, 9).contains(c1) && set_int_range(0, 9).contains(c2) && #[trigger] f(
                c1,
            ) == #[trigger] f(c2) implies c1 == c2 by {
            if c1 != c2 {
                let i1 = pick(c1);
                let i2 = pick(c2);
                assert(i1 != i2);
                assert(touches(g[i1], row_of(g[i1])) && touches(g[i2], row_of(g[i1])));
                assert(shares_constraint(g[i1], g[i2]));
            }
        }
    }
    let vals = set_int_range(0, 9).map(f);
    lemma_int_range(0, 9);
    lemma_int_range(1, 10);
    lemma_map_size(set_int_range(0, 9), vals, f);
    assert(vals.subset_of(set_int_range(1, 10))) by {
        assert forall|v: int| #[trigger] vals.contains(v) implies set_int_range(1, 10).contains(
            v,
        ) by {
            let c = choose|c: int| set_int_range(0, 9).contains(c) && v == f(c);
            assert(valid_choice(g[pick(c)]));
        }
    }
    lemma_subset_equality(vals, set_int_range(1, 10));
    assert(vals.contains(val));
    let c = choose|c: int| set_int_range(0, 9).contains(c) && val == f(c);
    assert(g[pick(c)].row == r0 && g[pick(c)].value == val);
}

/// Every value appears in every column of a complete, conflict-free
/// assignment.
proof fn lemma_column_has_value(g: Seq<SquareChoice>, c0: int, val: int)
    requires
        forall|i: int| 0 <= i < g.len() ==> valid_choice(#[trigger] g[i]),
        pairwise_ok(g),
        forall|r: int, c: int| 0 <= r < 9 && 0 <= c < 9 ==> covers_cell(g, r, c),
        0 <= c0 < 9,
        1 <= val <= 9,
    ensures
        exists|i: int| 0 <= i < g.len() && (#[trigger] g[i]).col == c0 && g[i].value == val,
{
    let pick = |r: int|
        choose|i: int| 0 <= i < g.len() && (#[trigger] g[i]).row == r && g[i].col == c0;
    let f = |r: int| g[pick(r)].value as int;
    assert forall|r: int| set_int_range(0, 9).contains(r) implies 0 <= pick(r) < g.len()
        && g[pick(r)].row == r && g[pick(r)].col == c0 by {
        assert(covers_cell(g, r, c0));
    }
    assert(injective_on(f, set_int_range(0, 9))) by {
        assert forall|r1: int, r2: int|
            set_int_range(0, 9).contains(r1) && set_int_range(0, 9).contains(r2) && #[trigger] f(
                r1,
            ) == #[trigger] f(r2) implies r1 == r2 by {
            if r1 != r2 {
                let i1 = pick(r1);
                let i2 = pick(r2);
                assert(i1 != i2);
                assert(touches(g[i1], column_of(g[i1])) && touches(g[i2], column_of(g[i1])));
                assert(shares_constraint(g[i1], g[i2]));
            }
        }
    }
    let vals = set_int_range(0, 9).map(f);
    lemma_int_range(0, 9);
    lemma_int_range(1, 10);
    lemma_map_size(set_int_range(0, 9), vals, f);
    assert(vals.subset_of(set_int_range(1, 10))) by {
        assert forall|v: int| #[trigger] vals.contains(v) implies set_int_range(1, 10).contains(
            v,
        ) by {
            let r = choose|r: int| set_int_range(0, 9).contains(r) && v == f(r);
            assert(valid_choice(g[pick(r)]));
        }
    }
    lemma_subset_equality(vals, set_int_range(1, 10));
    assert(vals.contains(val));
    let r = choose|r: int| set_int_range(0, 9).contains(r) && val == f(r);
    assert(g[pick(r)].col == c0 && g[pick(r)].value == val);
}

/// Every value appears in every block of a complete, conflict-free
/// assignment.
proof fn lemma_block_has_value(g: Seq<SquareChoice>, b0: int, val: int)
    requires
        forall|i: int| 0 <= i < g.len() ==> valid_choice(#[trigger] g[i]),
        pairwise_ok(g),
        forall|r: int, c: int| 0 <= r < 9 && 0 <= c < 9 ==> covers_cell(g, r, c),
        0 <= b0 < 9,
        1 <= val <= 9,
    ensures
        exists|i: int|
            0 <= i < g.len() && block_of((#[trigger] g[i]).row, g[i].col) == b0 && g[i].value
                == val,
{
    let cell_row = |k: int| 3 * (b0 / 3) + k / 3;
    let cell_col = |k: int| 3 * (b0 % 3) + k % 3;
    let pick = |k: int|
        choose|i: int|
            0 <= i < g.len() && (#[trigger] g[i]).row == cell_row(k) && g[i].col == cell_col(k);
    let f = |k: int| g[pick(k)].value as int;
    assert forall|k: int| set_int_range(0, 9).contains(k) implies 0 <= pick(k) < g.len()
        && g[pick(k)].row == cell_row(k) && g[pick(k)].col == cell_col(k) && block_of(
        g[pick(k)].row,
        g[pick(k)].col,
    ) == b0 by {
        assert(0 <= cell_row(k) < 9 && 0 <= cell_col(k) < 9);
        assert(covers_cell(g, cell_row(k), cell_col(k)));
        assert(cell_row(k) / 3 == b0 / 3 && cell_col(k) / 3 == b0 % 3);
    }
    assert(injective_on(f, set_int_range(0, 9))) by {
        assert forall|k1: int, k2: int|
            set_int_range(0, 9).contains(k1) && set_int_range(0, 9).contains(k2) && #[trigger] f(
                k1,
            ) == #[trigger] f(k2) implies k1 == k2 by {
            if k1 != k2 {
                let i1 = pick(k1);
                let i2 = pick(k2);
                assert(!(cell_row(k1) == cell_row(k2) && cell_col(k1) == cell_col(k2)));
                assert(i1 != i2);
                assert(block_con_of(g[i1]) == block_con_of(g[i2]));
                assert(touches(g[i1], block_con_of(g[i1])) && touches(g[i2], block_con_of(g[i1])));
                assert(shares_constraint(g[i1], g[i2]));
            }
        }
    }
    let vals = set_int_range(0, 9).map(f);
    lemma_int_range(0, 9);
    lemma_int_range(1, 10);
    lemma_map_size(set_int_range(0, 9), vals, f);
    assert(vals.subset_of(set_int_range(1, 10))) by {
        assert forall|v: int| #[trigger] vals.contains(v) implies set_int_range(1, 10).contains(
            v,
        ) by {
            let k = choose|k: int| set_int_range(0, 9).contains(k) && v == f(k);
            assert(valid_choice(g[pick(k)]));
        }
    }
    lemma_subset_equality(vals, set_int_range(1, 10));
    assert(vals.contains(val));
    let k = choose|k: int| set_int_range(0, 9).contains(k) && val == f(k);
    assert(block_of(g[pick(k)].row, g[pick(k)].col) == b0 && g[pick(k)].value == val);
}

/// On solvable input, every cell not already given stays an open column of
/// the initial matrix: the solution's own entry for that cell is a choice
/// none of whose constraints a given has solved.
pub proof fn lemma_solution_keeps_squares_open(
    s0: Seq<SquareChoice>,
    g: Seq<SquareChoice>,
    v: Map<Constraint, Set<SquareChoice>>,
)
    requires
        initial_matrix(s0, v),
        forall|i: int| 0 <= i < g.len() ==> valid_choice(#[trigger] g[i]),
        pairwise_ok(g),
        s0.is_prefix_of(g),
        forall|r: int, c: int| 0 <= r < 9 && 0 <= c < 9 ==> covers_cell(g, r, c),
    ensures
        forall|r: u8, c: u8|
            r < 9 && c < 9 && !solved_by(s0, (Constraint::Square { row: r, col: c }))
                ==> v.dom().contains((Constraint::Square { row: r, col: c })),
{
    assert forall|r: u8, c: u8|
        r < 9 && c < 9 && !solved_by(
            s0,
            (Constraint::Square { row: r, col: c }),
        ) implies v.dom().contains((Constraint::Square { row: r, col: c })) by {
        let sq = Constraint::Square { row: r, col: c };
        assert(covers_cell(g, r as int, c as int));
        let i = choose|i: int|
            0 <= i < g.len() && (#[trigger] g[i]).row == r as int && g[i].col == c as int;
        let ch = g[i];
        assert(square_of(ch) == sq);
        assert(touches(ch, sq));
        assert(i >= s0.len()) by {
            if i < s0.len() {
                assert(s0[i] == g[i]);
                assert(touches(s0[i], sq));
                assert(solved_by(s0, sq));
            }
        }
        assert(open_choice(s0, ch)) by {
            assert(!solved_by(s0, row_of(ch))) by {
                if solved_by(s0, row_of(ch)) {
                    let j = choose|j: int|
                        0 <= j < s0.len() && touches(#[trigger] s0[j], row_of(ch));
                    assert(g[j] == s0[j]);
                    assert(touches(ch, row_of(ch)));
                    assert(shares_constraint(g[j], g[i]));
                }
            }
            assert(!solved_by(s0, column_of(ch))) by {
                if solved_by(s0, column_of(ch)) {
                    let j = choose|j: int|
                        0 <= j < s0.len() && touches(#[trigger] s0[j], column_of(ch));
                    assert(g[j] == s0[j]);
                    assert(touches(ch, column_of(ch)));
                    assert(shares_constraint(g[j], g[i]));
                }
            }
            assert(!solved_by(s0, block_con_of(ch))) by {
                if solved_by(s0, block_con_of(ch)) {
                    let j = choose|j: int|
                        0 <= j < s0.len() && touches(#[trigger] s0[j], block_con_of(ch));
                    assert(g[j] == s0[j]);
                    assert(touches(ch, block_con_of(ch)));
                    assert(shares_constraint(g[j], g[i]));
                }
            }
            assert(!solved_by(s0, square_of(ch))) by {
                assert(square_of(ch) == sq);
            }
        }
        assert(open_choice(s0, ch) && touches(ch, sq));
    }
}

/// Completeness on solvable input, the existence half: a complete,
/// conflict-free assignment extending the givens yields an exact cover of
/// the initial matrix — so the search, which succeeds exactly when such a
/// cover exists, is bound to succeed.
pub proof fn lemma_solution_gives_cover(
    s0: Seq<SquareChoice>,
    g: Seq<SquareChoice>,
    v: Map<Constraint, Set<SquareChoice>>,
)
    requires
        initial_matrix(s0, v),
        forall|i: int| 0 <= i < g.len() ==> valid_choice(#[trigger] g[i]),
        pairwise_ok(g),
        s0.is_prefix_of(g),
        forall|r: int, c: int| 0 <= r < 9 && 0 <= c < 9 ==> covers_cell(g, r, c),
    ensures
        exact_cover(committed_from(g, s0.len() as int), v),
{
    reveal(exact_cover);
    let es = committed_from(g, s0.len() as int);
    // Entries beyond the givens are still-open choices: a given solving one
    // of their constraints would conflict with them.
    assert forall|i: int| s0.len() <= i < g.len() implies open_choice(s0, #[trigger] g[i]) by {
        let ch = g[i];
        assert(!solved_by(s0, square_of(ch)) && !solved_by(s0, row_of(ch)) && !solved_by(
            s0,
            column_of(ch),
        ) && !solved_by(s0, block_con_of(ch))) by {
            assert forall|cst: Constraint|
                touches(ch, cst) implies !solved_by(s0, cst) by {
                if solved_by(s0, cst) {
                    let j = choose|j: int| 0 <= j < s0.len() && touches(#[trigger] s0[j], cst);
                    assert(g[j] == s0[j]);
                    assert(shares_constraint(g[j], g[i]));
                }
            }
            assert(touches(ch, square_of(ch)) && touches(ch, row_of(ch)) && touches(
                ch,
                column_of(ch),
            ) && touches(ch, block_con_of(ch)));
        }
    }
    // Every open constraint is satisfied by a committed entry of its own
    // column: its unit is fully assigned and holds every value.
    assert forall|cst: Constraint| #[trigger] v.dom().contains(cst) implies exists|
        e: SquareChoice,
    |
        es.contains(e) && #[trigger] v[cst].contains(e) by {
        assert(valid_constraint(cst));
        assert(!solved_by(s0, cst)) by {
            let ch0 = choose|ch0: SquareChoice|
                open_choice(s0, ch0) && #[trigger] touches(ch0, cst);
            assert(touches(ch0, square_of(ch0)) && touches(ch0, row_of(ch0)) && touches(
                ch0,
                column_of(ch0),
            ) && touches(ch0, block_con_of(ch0)));
        }
        let i = match cst {
            Constraint::Square { row, col } => {
                assert(covers_cell(g, row as int, col as int));
                let i = choose|i: int|
                    0 <= i < g.len() && (#[trigger] g[i]).row == row as int && g[i].col
                        == col as int;
                assert(square_of(g[i]) == cst);
                i
            },
            Constraint::Row { row, value } => {
                lemma_row_has_value(g, row as int, value as int);
                let i = choose|i: int|
                    0 <= i < g.len() && (#[trigger] g[i]).row == row as int && g[i].value
                        == value as int;
                assert(row_of(g[i]) == cst);
                i
            },
            Constraint::Column { col, value } => {
                lemma_column_has_value(g, col as int, value as int);
                let i = choose|i: int|
                    0 <= i < g.len() && (#[trigger] g[i]).col == col as int && g[i].value
                        == value as int;
                assert(column_of(g[i]) == cst);
                i
            },
            Constraint::Block { block, value } => {
                lemma_block_has_value(g, block as int, value as int);
                let i = choose|i: int|
                    0 <= i < g.len() && block_of((#[trigger] g[i]).row, g[i].col) == block as int
                        && g[i].value == value as int;
                assert(block_con_of(g[i]) == cst);
                i
            },
        };
        assert(0 <= i < g.len() && touches(g[i], cst));
        assert(i >= s0.len()) by {
            if i < s0.len() {
                assert(s0[i] == g[i]);
                assert(solved_by(s0, cst));
            }
        }
        assert(open_choice(s0, g[i]));
        assert(v[cst].contains(g[i]));
        assert(es.contains(g[i]));
    }
    assert forall|e1: SquareChoice, e2: SquareChoice|
        #![trigger es.contains(e1), es.contains(e2)]
        es.contains(e1) && es.contains(e2) && e1 != e2 implies !shares_constraint(e1, e2) by {
        let i1 = choose|i: int| s0.len() <= i < g.len() && (#[trigger] g[i]) == e1;
        let i2 = choose|i: int| s0.len() <= i < g.len() && (#[trigger] g[i]) == e2;
        assert(i1 != i2);
    }
    assert forall|e: SquareChoice| #[trigger] es.contains(e) implies exists|cst: Constraint|
        v.dom().contains(cst) && #[trigger] v[cst].contains(e) by {
        let i = choose|i: int| s0.len() <= i < g.len() && (#[trigger] g[i]) == e;
        assert(open_choice(s0, e));
        assert(touches(e, square_of(e)));
        assert(v.dom().contains(square_of(e)));
        assert(v[square_of(e)].contains(e));
    }
}

/// A successful search fills the whole grid: each cell was either given, or
/// its cell constraint was an open column and so is satisfied by an appended
/// choice.
pub proof fn lemma_success_fills_grid(
    s0: Seq<SquareChoice>,
    sfinal: Seq<SquareChoice>,
    v: Map<Constraint, Set<SquareChoice>>,
)
    requires
        s0.is_prefix_of(sfinal),
        forall|r: u8, c: u8|
            r < 9 && c < 9 && !solved_by(s0, (Constraint::Square { row: r, col: c }))
                ==> v.dom().contains((Constraint::Square { row: r, col: c })),
        forall|cst: Constraint|
            #[trigger] v.dom().contains(cst) ==> exists|i: int|
                s0.len() <= i < sfinal.len() && touches(sfinal[i], cst),
    ensures
        forall|r: int, c: int| 0 <= r < 9 && 0 <= c < 9 ==> covers_cell(sfinal, r, c),
{
    assert forall|r: int, c: int| 0 <= r < 9 && 0 <= c < 9 implies covers_cell(sfinal, r, c) by {
        let sq = Constraint::Square { row: r as u8, col: c as u8 };
        assert(sq == (Constraint::Square { row: r as u8, col: c as u8 }));
        if solved_by(s0, sq) {
            let j = choose|j: int| 0 <= j < s0.len() && touches(#[trigger] s0[j], sq);
            assert(s0[j] == sfinal[j]);
            assert(sfinal[j].row == r && sfinal[j].col == c);
        } else {
            assert(v.dom().contains(sq));
            let i = choose|i: int|
                s0.len() <= i < sfinal.len() && touches(#[trigger] sfinal[i], sq);
            assert(sfinal[i].row == r && sfinal[i].col == c);
        }
    }
}

/// The counting half of completeness: a pairwise-sound, valid state that
/// assigns every cell has exactly 81 entries, one per cell.
pub proof fn lemma_full_cover_is_81(s: Seq<SquareChoice>)
    requires
        forall|i: int| 0 <= i < s.len() ==> valid_choice(#[trigger] s[i]),
        pairwise_ok(s),
        forall|r: int, c: int| 0 <= r < 9 && 0 <= c < 9 ==> covers_cell(s, r, c),
    ensures
        s.len() == 81,
        forall|i: int, j: int|
            0 <= i < s.len() && 0 <= j < s.len() && i != j ==> !((#[trigger] s[i]).row
                == (#[trigger] s[j]).row && s[i].col == s[j].col),
{
    lemma_sound_state_reading(s);
    let enc = |ch: SquareChoice| 9 * (ch.row as int) + (ch.col as int);
    let es = s.map_values(enc);
    assert(es.no_duplicates()) by {
        assert forall|i: int, j: int|
            0 <= i < es.len() && 0 <= j < es.len() && i != j implies es[i] != es[j] by {
            if es[i] == es[j] {
                assert(9 * (s[i].row as int) + (s[i].col as int) == 9 * (s[j].row as int) + (
                s[j].col as int));
                assert(s[i].row == s[j].row && s[i].col == s[j].col);
            }
        }
    }
    es.unique_seq_to_set();
    assert(es.to_set() =~= set_int_range(0, 81)) by {
        assert forall|k: int| es.to_set().contains(k) implies set_int_range(0, 81).contains(
            k,
        ) by {
            let i = choose|i: int| 0 <= i < es.len() && es[i] == k;
            assert(valid_choice(s[i]));
        }
        assert forall|k: int| set_int_range(0, 81).contains(k) implies es.to_set().contains(
            k,
        ) by {
            let r = k / 9;
            let c = k % 9;
            assert(0 <= r < 9 && 0 <= c < 9);
            assert(covers_cell(s, r, c));
            let i = choose|i: int|
                0 <= i < s.len() && (#[trigger] s[i]).row == r && s[i].col == c;
            assert(es[i] == 9 * r + c);
            assert(9 * r + c == k);
            assert(es.contains(k));
        }
    }
    lemma_int_range(0, 81);
    assert(es.to_set().len() == 81);
    assert(s.len() == es.len());
}

} // verus!
