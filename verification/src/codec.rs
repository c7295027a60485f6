//! The grid codec: parsing a textual puzzle into givens and an initial
//! exact-cover matrix, and rendering a state back to text.
//!
//! The input is up to nine lines of up to nine characters; a digit `1`-`9` is
//! a given clue, any other character an empty cell.  A character outside that
//! frame (a tenth line, or a tenth character on a line) makes the input
//! malformed.  The output is nine lines of nine characters, `.` for an
//! unassigned cell.

use vstd::prelude::*;
use vstd::string::StrSliceExecFns;

use crate::matrix::{map_wf, Matrix};
use crate::model::{
    block_con_of, column_of, con_at, con_index, constraint_index, lemma_con_at_valid,
    lemma_con_index_in_range, row_of, shares_constraint, square_of, touches, valid_choice,
    valid_constraint, Constraint, SquareChoice,
};
use crate::search::{active_closed, state_compat, state_disjoint};

verus! {

/// The one reportable input error: the grid text oversteps nine lines of
/// nine characters.
#[derive(Copy, Clone, PartialEq, Eq, Structural, Debug)]
pub enum GridError {
    MalformedInput,
}

/// A clue character: a decimal digit `1` through `9`.
pub open spec fn is_clue(c: char) -> bool {
    49 <= (c as u32) && (c as u32) <= 57
}

/// The digit value of a clue character.
pub open spec fn clue_value(c: char) -> u8 {
    ((c as u32) - 48) as u8
}

/// The text parses without any character falling outside the 9x9 frame,
/// starting at position `(row, col)`.
pub open spec fn parse_ok(t: Seq<char>, row: int, col: int) -> bool
    decreases t.len(),
{
    if t.len() == 0 {
        true
    } else if t[0] == '\n' {
        parse_ok(t.skip(1), row + 1, 0)
    } else {
        row < 9 && col < 9 && parse_ok(t.skip(1), row, col + 1)
    }
}

/// The givens read from the text, in reading order, starting at `(row, col)`.
pub open spec fn parse_givens(t: Seq<char>, row: int, col: int) -> Seq<SquareChoice>
    decreases t.len(),
{
    if t.len() == 0 {
        Seq::empty()
    } else if t[0] == '\n' {
        parse_givens(t.skip(1), row + 1, 0)
    } else if is_clue(t[0]) {
        seq![SquareChoice { row: row as u8, col: col as u8, value: clue_value(t[0]) }]
            + parse_givens(t.skip(1), row, col + 1)
    } else {
        parse_givens(t.skip(1), row, col + 1)
    }
}

/// The constraint is satisfied by one of the committed choices.
pub open spec fn solved_by(s: Seq<SquareChoice>, c: Constraint) -> bool {
    exists|i: int| 0 <= i < s.len() && touches(#[trigger] s[i], c)
}

/// A candidate that remains possible next to the givens: valid, and none of
/// its four constraints already solved.
pub open spec fn open_choice(s: Seq<SquareChoice>, ch: SquareChoice) -> bool {
    &&& valid_choice(ch)
    &&& !solved_by(s, square_of(ch))
    &&& !solved_by(s, row_of(ch))
    &&& !solved_by(s, column_of(ch))
    &&& !solved_by(s, block_con_of(ch))
}

/// The initial matrix for givens `s`: a constraint is open exactly when some
/// still-possible choice satisfies it, and its column holds exactly those
/// choices.
pub open spec fn initial_matrix(s: Seq<SquareChoice>, v: Map<Constraint, Set<SquareChoice>>) -> bool {
    &&& forall|c: Constraint|
        #[trigger] v.dom().contains(c) <==> (valid_constraint(c) && exists|ch: SquareChoice|
            open_choice(s, ch) && #[trigger] touches(ch, c))
    &&& forall|c: Constraint, ch: SquareChoice|
        #![trigger v[c].contains(ch)]
        v.dom().contains(c) ==> (v[c].contains(ch) <==> (open_choice(s, ch) && touches(ch, c)))
}

/// The flat index of a choice in the fixed enumeration of all 729 candidate
/// choices (row-major, then value).
pub open spec fn choice_enc(ch: SquareChoice) -> int {
    81 * (ch.row as int) + 9 * (ch.col as int) + (ch.value as int - 1)
}

/// The candidate choice with flat index `t`; inverse of `choice_enc` on
/// valid choices.
pub open spec fn choice_at(t: int) -> SquareChoice {
    SquareChoice { row: (t / 81) as u8, col: ((t / 9) % 9) as u8, value: (t % 9 + 1) as u8 }
}

proof fn lemma_choice_at_valid(t: int)
    requires
        0 <= t < 729,
    ensures
        valid_choice(choice_at(t)),
        choice_enc(choice_at(t)) == t,
{
}

proof fn lemma_choice_enc_in_range(ch: SquareChoice)
    requires
        valid_choice(ch),
    ensures
        0 <= choice_enc(ch) < 729,
        choice_at(choice_enc(ch)) == ch,
{
}

/// Decode a puzzle text into the committed givens and the initial matrix.
/// Rejects text with a character outside the 9x9 frame; otherwise returns
/// the givens in reading order together with a matrix mapping every
/// still-open constraint to its still-possible choices.
#[verifier::rlimit(100)]
pub fn unpack(display: &str) -> (result: Result<(Vec<SquareChoice>, Matrix), GridError>)
    ensures
        result is Ok <==> parse_ok(display@, 0, 0),
        result matches Ok((state, m)) ==> {
            &&& state@ == parse_givens(display@, 0, 0)
            &&& forall|i: int| 0 <= i < state@.len() ==> valid_choice(#[trigger] state@[i])
            &&& m.wf()
            &&& initial_matrix(state@, m@)
            &&& map_wf(m@)
            &&& active_closed(m@)
            &&& state_compat(state@, m@)
            &&& state_disjoint(state@, m@)
        },
        result matches Err(e) ==> e == GridError::MalformedInput,
{
    let n = display.unicode_len();
    let mut state: Vec<SquareChoice> = Vec::new();
    let mut row: usize = 0;
    let mut col: usize = 0;
    let mut i: usize = 0;
    proof {
        assert(display@.skip(0) == display@);
        assert(Seq::<SquareChoice>::empty() + parse_givens(display@, 0, 0) =~= parse_givens(
            display@,
            0,
            0,
        ));
    }
    while i < n
        invariant
            n == display@.len(),
            i <= n,
            row <= i,
            col <= i,
            parse_ok(display@, 0, 0) <==> parse_ok(display@.skip(i as int), row as int, col as int),
            parse_givens(display@, 0, 0) == state@ + parse_givens(
                display@.skip(i as int),
                row as int,
                col as int,
            ),
            forall|t: int| 0 <= t < state@.len() ==> valid_choice(#[trigger] state@[t]),
        decreases n - i,
    {
        let c = display.get_char(i);
        proof {
            assert(display@.skip(i as int).skip(1) == display@.skip(i + 1));
            assert(display@.skip(i as int)[0] == display@[i as int]);
            assert(display@.skip(i as int).len() == n - i);
        }
        if c == '\n' {
            row = row + 1;
            col = 0;
        } else {
            if row >= 9 || col >= 9 {
                proof {
                    assert(!parse_ok(display@.skip(i as int), row as int, col as int));
                }
                return Err(GridError::MalformedInput);
            }
            let u = c as u32;
            if 49 <= u && u <= 57 {
                let value = (u - 48) as u8;
                let ch = SquareChoice { row: row as u8, col: col as u8, value };
                let ghost prev = state@;
                state.push(ch);
                proof {
                    assert(state@ == prev.push(ch));
                    assert(prev.push(ch) =~= prev + seq![ch]);
                    assert(prev + (seq![ch] + parse_givens(
                        display@.skip(i + 1),
                        row as int,
                        col + 1,
                    )) =~= (prev + seq![ch]) + parse_givens(
                        display@.skip(i + 1),
                        row as int,
                        col + 1,
                    ));
                }
            }
            col = col + 1;
        }
        i = i + 1;
    }
    proof {
        assert(display@.skip(n as int) =~= Seq::<char>::empty());
        assert(parse_ok(display@.skip(n as int), row as int, col as int));
        assert(parse_givens(display@.skip(n as int), row as int, col as int)
            =~= Seq::<SquareChoice>::empty());
        assert(state@ =~= state@ + Seq::<SquareChoice>::empty());
        assert(state@ == parse_givens(display@, 0, 0));
    }
    // Mark the four constraints of every given as solved.
    let mut solved: Vec<bool> = Vec::new();
    while solved.len() < 324
        invariant
            solved@.len() <= 324,
            forall|k: int| 0 <= k < solved@.len() ==> !(#[trigger] solved@[k]),
        decreases 324 - solved@.len(),
    {
        solved.push(false);
    }
    let mut gi: usize = 0;
    while gi < state.len()
        invariant
            solved@.len() == 324,
            gi <= state@.len(),
            forall|t: int| 0 <= t < state@.len() ==> valid_choice(#[trigger] state@[t]),
            forall|k: int|
                0 <= k < 324 ==> ((#[trigger] solved@[k]) <==> solved_by(
                    state@.take(gi as int),
                    con_at(k),
                )),
        decreases state@.len() - gi,
    {
        let ch = state[gi];
        let ghost pre = solved@;
        let b = 3 * (ch.row / 3) + (ch.col / 3);
        let c1 = Constraint::Square { row: ch.row, col: ch.col };
        let c2 = Constraint::Row { row: ch.row, value: ch.value };
        let c3 = Constraint::Column { col: ch.col, value: ch.value };
        let c4 = Constraint::Block { block: b, value: ch.value };
        proof {
            assert(c1 == square_of(ch));
            assert(c2 == row_of(ch));
            assert(c3 == column_of(ch));
            assert(c4 == block_con_of(ch));
        }
        let k1 = constraint_index(c1);
        let k2 = constraint_index(c2);
        let k3 = constraint_index(c3);
        let k4 = constraint_index(c4);
        solved[k1] = true;
        solved[k2] = true;
        solved[k3] = true;
        solved[k4] = true;
        proof {
            assert(state@.take(gi + 1) == state@.take(gi as int).push(ch));
            assert(state@.take(gi + 1).drop_last() == state@.take(gi as int));
            assert forall|k: int| 0 <= k < 324 implies ((#[trigger] solved@[k]) <==> solved_by(
                state@.take(gi + 1),
                con_at(k),
            )) by {
                lemma_con_at_valid(k);
                let cs = state@.take(gi + 1);
                assert(cs.last() == ch);
                // The new flag states are the old ones plus the four
                // constraints of the pushed given.
                if k == k1 as int || k == k2 as int || k == k3 as int || k == k4 as int {
                    assert(solved@[k]);
                    assert(touches(ch, con_at(k)));
                    assert(cs[gi as int] == ch);
                    assert(solved_by(cs, con_at(k)));
                } else {
                    assert(solved@[k] == pre[k]);
                    assert(!(con_at(k) == square_of(ch)) && !(con_at(k) == row_of(ch)) && !(con_at(
                        k,
                    ) == column_of(ch)) && !(con_at(k) == block_con_of(ch))) by {
                        if con_at(k) == square_of(ch) {
                            lemma_con_index_in_range(square_of(ch));
                            assert(k == k1 as int);
                        }
                        if con_at(k) == row_of(ch) {
                            lemma_con_index_in_range(row_of(ch));
                            assert(k == k2 as int);
                        }
                        if con_at(k) == column_of(ch) {
                            lemma_con_index_in_range(column_of(ch));
                            assert(k == k3 as int);
                        }
                        if con_at(k) == block_con_of(ch) {
                            lemma_con_index_in_range(block_con_of(ch));
                            assert(k == k4 as int);
                        }
                    }
                    assert(!touches(ch, con_at(k)));
                    if solved_by(cs, con_at(k)) {
                        let t = choose|t: int|
                            0 <= t < cs.len() && touches(#[trigger] cs[t], con_at(k));
                        if t < gi {
                            assert(state@.take(gi as int)[t] == cs[t]);
                            assert(solved_by(state@.take(gi as int), con_at(k)));
                        }
                    }
                    if solved_by(state@.take(gi as int), con_at(k)) {
                        let t = choose|t: int|
                            0 <= t < gi && touches(
                                #[trigger] state@.take(gi as int)[t],
                                con_at(k),
                            );
                        assert(cs[t] == state@.take(gi as int)[t]);
                        assert(solved_by(cs, con_at(k)));
                    }
                }
            }
        }
        gi = gi + 1;
    }
    proof {
        assert(state@.take(state@.len() as int) == state@);
    }
    let ghost sv = state@;
    // Enter every still-possible choice under its four constraints.
    let mut m = Matrix::new();
    let mut t: usize = 0;
    while t < 729
        invariant
            m.wf(),
            t <= 729,
            solved@.len() == 324,
            sv == state@,
            forall|i2: int| 0 <= i2 < sv.len() ==> valid_choice(#[trigger] sv[i2]),
            forall|k: int| 0 <= k < 324 ==> ((#[trigger] solved@[k]) <==> solved_by(sv, con_at(k))),
            forall|c: Constraint|
                #[trigger] m@.dom().contains(c) <==> (valid_constraint(c) && exists|
                    ch: SquareChoice,
                |
                    choice_enc(ch) < t && open_choice(sv, ch) && #[trigger] touches(ch, c)),
            forall|c: Constraint, ch: SquareChoice|
                #![trigger m@[c].contains(ch)]
                m@.dom().contains(c) ==> (m@[c].contains(ch) <==> (choice_enc(ch) < t
                    && open_choice(sv, ch) && touches(ch, c))),
        decreases 729 - t,
    {
        let row8 = (t / 81) as u8;
        let col8 = ((t / 9) % 9) as u8;
        let val8 = (t % 9 + 1) as u8;
        let ch = SquareChoice { row: row8, col: col8, value: val8 };
        proof {
            lemma_choice_at_valid(t as int);
            assert(ch == choice_at(t as int));
            assert(valid_choice(ch));
            assert(choice_enc(ch) == t as int);
        }
        let b = 3 * (ch.row / 3) + (ch.col / 3);
        let c1 = Constraint::Square { row: ch.row, col: ch.col };
        let c2 = Constraint::Row { row: ch.row, value: ch.value };
        let c3 = Constraint::Column { col: ch.col, value: ch.value };
        let c4 = Constraint::Block { block: b, value: ch.value };
        proof {
            assert(c1 == square_of(ch));
            assert(c2 == row_of(ch));
            assert(c3 == column_of(ch));
            assert(c4 == block_con_of(ch));
        }
        let k1 = constraint_index(c1);
        let k2 = constraint_index(c2);
        let k3 = constraint_index(c3);
        let k4 = constraint_index(c4);
        let is_open = !solved[k1] && !solved[k2] && !solved[k3] && !solved[k4];
        proof {
            assert(con_at(k1 as int) == c1);
            assert(con_at(k2 as int) == c2);
            assert(con_at(k3 as int) == c3);
            assert(con_at(k4 as int) == c4);
            assert(is_open == open_choice(sv, ch));
        }
        if is_open {
            let ghost m0 = m@;
            proof {
                lemma_insert_pre(m0, sv, c1, ch, t as int);
                lemma_insert_pre(m0, sv, c2, ch, t as int);
                lemma_insert_pre(m0, sv, c3, ch, t as int);
                lemma_insert_pre(m0, sv, c4, ch, t as int);
                assert(c1 != c2 && c1 != c3 && c1 != c4 && c2 != c3 && c2 != c4 && c3 != c4);
            }
            m.insert_choice(c1, ch);
            proof {
                assert(!(m@.dom().contains(c2) && m@[c2].contains(ch))) by {
                    if m@.dom().contains(c2) {
                        assert(m0.dom().contains(c2));
                        assert(m@[c2] == m0[c2]);
                    }
                }
            }
            m.insert_choice(c2, ch);
            proof {
                assert(!(m@.dom().contains(c3) && m@[c3].contains(ch))) by {
                    if m@.dom().contains(c3) {
                        assert(m0.dom().contains(c3));
                        assert(m@[c3] == m0[c3]);
                    }
                }
            }
            m.insert_choice(c3, ch);
            proof {
                assert(!(m@.dom().contains(c4) && m@[c4].contains(ch))) by {
                    if m@.dom().contains(c4) {
                        assert(m0.dom().contains(c4));
                        assert(m@[c4] == m0[c4]);
                    }
                }
            }
            m.insert_choice(c4, ch);
        }
        proof {
            assert forall|c: Constraint| #[trigger]
                m@.dom().contains(c) <==> (valid_constraint(c) && exists|ch2: SquareChoice|
                    choice_enc(ch2) < t + 1 && open_choice(sv, ch2) && #[trigger] touches(
                        ch2,
                        c,
                    )) by {
                if m@.dom().contains(c) {
                    if valid_constraint(c) && exists|ch2: SquareChoice|
                        choice_enc(ch2) < t && open_choice(sv, ch2) && #[trigger] touches(ch2, c) {
                        let ch2 = choose|ch2: SquareChoice|
                            choice_enc(ch2) < t && open_choice(sv, ch2) && #[trigger] touches(
                                ch2,
                                c,
                            );
                        assert(choice_enc(ch2) < t + 1);
                    } else {
                        assert(open_choice(sv, ch) && touches(ch, c));
                        assert(choice_enc(ch) < t + 1);
                    }
                } else {
                    if valid_constraint(c) && exists|ch2: SquareChoice|
                        choice_enc(ch2) < t + 1 && open_choice(sv, ch2) && #[trigger] touches(
                            ch2,
                            c,
                        ) {
                        let ch2 = choose|ch2: SquareChoice|
                            choice_enc(ch2) < t + 1 && open_choice(sv, ch2) && #[trigger] touches(
                                ch2,
                                c,
                            );
                        if choice_enc(ch2) < t {
                            assert(m@.dom().contains(c));
                        } else {
                            lemma_choice_enc_in_range(ch2);
                            assert(ch2 == ch);
                            assert(is_open);
                            assert(touches(ch, c));
                            assert(m@.dom().contains(c));
                        }
                        assert(false);
                    }
                }
            }
            assert forall|c: Constraint, ch2: SquareChoice|
                #![trigger m@[c].contains(ch2)]
                m@.dom().contains(c) implies (m@[c].contains(ch2) <==> (choice_enc(ch2) < t + 1
                && open_choice(sv, ch2) && touches(ch2, c))) by {
                if choice_enc(ch2) == t as int && open_choice(sv, ch2) && touches(ch2, c) {
                    lemma_choice_enc_in_range(ch2);
                    assert(ch2 == ch);
                }
            }
        }
        t = t + 1;
    }
    // The finished matrix meets the search invariant for the givens.
    proof {
        assert forall|c: Constraint| #[trigger]
            m@.dom().contains(c) <==> (valid_constraint(c) && exists|ch: SquareChoice|
                open_choice(sv, ch) && #[trigger] touches(ch, c)) by {
            if valid_constraint(c) && exists|ch: SquareChoice|
                open_choice(sv, ch) && #[trigger] touches(ch, c) {
                let ch = choose|ch: SquareChoice|
                    open_choice(sv, ch) && #[trigger] touches(ch, c);
                lemma_choice_enc_in_range(ch);
                assert(choice_enc(ch) < 729 && open_choice(sv, ch) && touches(ch, c));
            }
        }
        assert forall|c: Constraint, ch: SquareChoice|
            #![trigger m@[c].contains(ch)]
            m@.dom().contains(c) implies (m@[c].contains(ch) <==> (open_choice(sv, ch) && touches(
            ch,
            c,
        ))) by {
            if open_choice(sv, ch) && touches(ch, c) {
                lemma_choice_enc_in_range(ch);
            }
        }
        m.lemma_wf_map();
        assert forall|c1: Constraint, ch: SquareChoice, c2: Constraint|
            m@.dom().contains(c1) && #[trigger] m@[c1].contains(ch) && #[trigger] touches(
                ch,
                c2,
            ) implies m@.dom().contains(c2) && m@[c2].contains(ch) by {
            assert(open_choice(sv, ch));
            assert(valid_constraint(c2)) by {
                crate::model::lemma_touched_valid(ch, c2);
            }
            assert(m@.dom().contains(c2));
        }
        assert forall|c: Constraint, ch: SquareChoice, i2: int|
            m@.dom().contains(c) && #[trigger] m@[c].contains(ch) && 0 <= i2 < sv.len()
            implies !shares_constraint(ch, #[trigger] sv[i2]) by {
            if shares_constraint(ch, sv[i2]) {
                let c2 = choose|c2: Constraint| touches(ch, c2) && touches(sv[i2], c2);
                assert(open_choice(sv, ch));
                assert(solved_by(sv, c2));
                assert(c2 == square_of(ch) || c2 == row_of(ch) || c2 == column_of(ch) || c2
                    == block_con_of(ch));
            }
        }
        assert forall|c: Constraint, i2: int|
            #[trigger] m@.dom().contains(c) && 0 <= i2 < sv.len() implies !touches(
            #[trigger] sv[i2],
            c,
        ) by {
            if touches(sv[i2], c) {
                let ch = choose|ch: SquareChoice|
                    open_choice(sv, ch) && #[trigger] touches(ch, c);
                assert(solved_by(sv, c));
                assert(c == square_of(ch) || c == row_of(ch) || c == column_of(ch) || c
                    == block_con_of(ch));
            }
        }
    }
    Ok((state, m))
}

/// The value shown in cell `(r, c)` after committing the choices in order:
/// the last choice writing the cell wins, `0` when the cell is unwritten.
pub open spec fn cell_value(s: Seq<SquareChoice>, r: int, c: int) -> int
    decreases s.len(),
{
    if s.len() == 0 {
        0
    } else if s.last().row == r && s.last().col == c {
        s.last().value as int
    } else {
        cell_value(s.drop_last(), r, c)
    }
}

/// The character rendering a cell value: its digit, or `.` when unassigned.
pub open spec fn digit_char(v: int) -> char {
    if v == 1 {
        '1'
    } else if v == 2 {
        '2'
    } else if v == 3 {
        '3'
    } else if v == 4 {
        '4'
    } else if v == 5 {
        '5'
    } else if v == 6 {
        '6'
    } else if v == 7 {
        '7'
    } else if v == 8 {
        '8'
    } else if v == 9 {
        '9'
    } else {
        '.'
    }
}

/// The nine characters of output row `r`.
pub open spec fn render_line(s: Seq<SquareChoice>, r: int) -> Seq<char> {
    Seq::new(9, |c: int| digit_char(cell_value(s, r, c)))
}

/// Encode a state as nine lines of nine characters: each assigned cell shows
/// its digit (the last assignment winning), every other cell a dot.
pub fn pack(state: &[SquareChoice]) -> (output: Vec<String>)
    requires
        forall|i: int| 0 <= i < state@.len() ==> valid_choice(#[trigger] state@[i]),
    ensures
        output@.len() == 9,
        forall|r: int| 0 <= r < 9 ==> (#[trigger] output@[r])@ == render_line(state@, r),
{
    let mut grid: Vec<u8> = Vec::new();
    while grid.len() < 81
        invariant
            grid@.len() <= 81,
            forall|k: int| 0 <= k < grid@.len() ==> (#[trigger] grid@[k]) == 0,
        decreases 81 - grid@.len(),
    {
        grid.push(0);
    }
    proof {
        assert forall|k: int| 0 <= k < 81 implies grid@[k] == cell_value(
            state@.take(0),
            k / 9,
            k % 9,
        ) by {
            assert(state@.take(0) =~= Seq::<SquareChoice>::empty());
        }
    }
    let mut gi: usize = 0;
    while gi < state.len()
        invariant
            grid@.len() == 81,
            gi <= state@.len(),
            forall|i: int| 0 <= i < state@.len() ==> valid_choice(#[trigger] state@[i]),
            forall|k: int|
                0 <= k < 81 ==> (#[trigger] grid@[k]) == cell_value(
                    state@.take(gi as int),
                    k / 9,
                    k % 9,
                ),
        decreases state@.len() - gi,
    {
        let ch = state[gi];
        let ghost pre = grid@;
        let idx = 9 * (ch.row as usize) + (ch.col as usize);
        grid[idx] = ch.value;
        proof {
            assert(state@.take(gi + 1).drop_last() == state@.take(gi as int));
            assert(state@.take(gi + 1).last() == ch);
            assert forall|k: int| 0 <= k < 81 implies (#[trigger] grid@[k]) == cell_value(
                state@.take(gi + 1),
                k / 9,
                k % 9,
            ) by {
                if k == idx as int {
                    assert(k / 9 == ch.row as int && k % 9 == ch.col as int);
                } else {
                    assert(grid@[k] == pre[k]);
                    assert(!(k / 9 == ch.row as int && k % 9 == ch.col as int)) by {
                        if k / 9 == ch.row as int && k % 9 == ch.col as int {
                            assert(k == 9 * (k / 9) + k % 9);
                        }
                    }
                }
            }
        }
        gi = gi + 1;
    }
    proof {
        assert(state@.take(state@.len() as int) == state@);
    }
    let mut output: Vec<String> = Vec::new();
    let mut r: usize = 0;
    while r < 9
        invariant
            grid@.len() == 81,
            forall|k: int|
                0 <= k < 81 ==> (#[trigger] grid@[k]) == cell_value(state@, k / 9, k % 9),
            r <= 9,
            output@.len() == r,
            forall|r2: int| 0 <= r2 < r ==> (#[trigger] output@[r2])@ == render_line(state@, r2),
        decreases 9 - r,
    {
        let mut line = String::new();
        let mut c: usize = 0;
        while c < 9
            invariant
                grid@.len() == 81,
                forall|k: int|
                    0 <= k < 81 ==> (#[trigger] grid@[k]) == cell_value(state@, k / 9, k % 9),
                r < 9,
                c <= 9,
                line@.len() == c,
                forall|c2: int|
                    0 <= c2 < c ==> (#[trigger] line@[c2]) == digit_char(
                        cell_value(state@, r as int, c2),
                    ),
            decreases 9 - c,
        {
            let k = 9 * r + c;
            let d = grid[k];
            proof {
                assert(k as int / 9 == r as int && k as int % 9 == c as int);
                assert(d == cell_value(state@, r as int, c as int));
            }
            let ghost prev = line@;
            if d == 1 {
                line.append("1");
                proof {
                    reveal_strlit("1");
                }
            } else if d == 2 {
                line.append("2");
                proof {
                    reveal_strlit("2");
                }
            } else if d == 3 {
                line.append("3");
                proof {
                    reveal_strlit("3");
                }
            } else if d == 4 {
                line.append("4");
                proof {
                    reveal_strlit("4");
                }
            } else if d == 5 {
                line.append("5");
                proof {
                    reveal_strlit("5");
                }
            } else if d == 6 {
                line.append("6");
                proof {
                    reveal_strlit("6");
                }
            } else if d == 7 {
                line.append("7");
                proof {
                    reveal_strlit("7");
                }
            } else if d == 8 {
                line.append("8");
                proof {
                    reveal_strlit("8");
                }
            } else if d == 9 {
                line.append("9");
                proof {
                    reveal_strlit("9");
                }
            } else {
                line.append(".");
                proof {
                    reveal_strlit(".");
                }
            }
            proof {
                assert(line@.len() == c + 1);
                assert(line@[c as int] == digit_char(cell_value(state@, r as int, c as int)));
                assert forall|c2: int| 0 <= c2 < c + 1 implies (#[trigger] line@[c2]) == digit_char(
                    cell_value(state@, r as int, c2),
                ) by {
                    if c2 < c {
                        assert(line@[c2] == prev[c2]);
                    }
                }
            }
            c = c + 1;
        }
        output.push(line);
        proof {
            assert(output@.last()@ =~= render_line(state@, r as int));
        }
        r = r + 1;
    }
    output
}

/// The precondition of one matrix insertion during the build: the choice is
/// not yet present, because its flat index is the one being processed.
proof fn lemma_insert_pre(
    v: Map<Constraint, Set<SquareChoice>>,
    sv: Seq<SquareChoice>,
    c: Constraint,
    ch: SquareChoice,
    t: int,
)
    requires
        0 <= t < 729,
        ch == choice_at(t),
        forall|c2: Constraint, ch2: SquareChoice|
            #![trigger v[c2].contains(ch2)]
            v.dom().contains(c2) ==> (v[c2].contains(ch2) <==> (choice_enc(ch2) < t && open_choice(
                sv,
                ch2,
            ) && touches(ch2, c2))),
    ensures
        !(v.dom().contains(c) && v[c].contains(ch)),
{
    lemma_choice_at_valid(t);
    if v.dom().contains(c) && v[c].contains(ch) {
        assert(choice_enc(ch) < t);
    }
}

} // verus!
