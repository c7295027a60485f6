//! The column store of the exact-cover matrix and the reversible
//! cover/uncover protocol.
//!
//! The matrix maps each open constraint to the set of choices that would
//! satisfy it.  It is stored as a flat array of 324 column slots, one per
//! possible constraint (`con_index` gives the slot of a constraint); a slot
//! holds `None` when the constraint is not open.  The abstract view of a
//! matrix is the map from open constraints to their choice sets.

use vstd::prelude::*;
use vstd::seq_lib::*;

use crate::model::{
    con_at, con_index, constraint_at, constraint_index, lemma_con_at_valid,
    lemma_con_index_in_range, lemma_con_index_injective, touches, valid_choice, valid_constraint,
    Constraint, SquareChoice,
};

verus! {

/// The undo record for one choice removed by `cover`: the choice itself and
/// the other open constraints whose columns contained it (and from which it
/// was therefore removed).
pub struct Row {
    pub choice: SquareChoice,
    pub headers: Vec<Constraint>,
}

/// The choices recorded by a removal record, in order.
pub open spec fn rec_choices(rs: Seq<Row>) -> Seq<SquareChoice> {
    rs.map_values(|r: Row| r.choice)
}

/// A well-formed column for constraint `c`: no duplicates, and every entry a
/// valid choice satisfying `c`.
pub open spec fn col_ok(s: Seq<SquareChoice>, c: Constraint) -> bool {
    &&& s.no_duplicates()
    &&& forall|j: int| 0 <= j < s.len() ==> valid_choice(#[trigger] s[j]) && touches(s[j], c)
}

/// Well-formedness of one slot of the store.
pub open spec fn slot_ok(o: Option<Vec<SquareChoice>>, c: Constraint) -> bool {
    match o {
        Some(v) => col_ok(v@, c),
        None => true,
    }
}

/// The number of open slots in a store.
pub open spec fn count_some(s: Seq<Option<Vec<SquareChoice>>>) -> nat
    decreases s.len(),
{
    if s.len() == 0 {
        0
    } else {
        count_some(s.drop_last()) + (if s.last() is Some {
            1nat
        } else {
            0nat
        })
    }
}

/// The mutable constraint-to-choices mapping the search operates on.
pub struct Matrix {
    cols: Vec<Option<Vec<SquareChoice>>>,
    open_count: usize,
}

impl View for Matrix {
    type V = Map<Constraint, Set<SquareChoice>>;

    /// The abstract value of the matrix: the map from each open constraint
    /// to the set of choices currently in its column.
    closed spec fn view(&self) -> Map<Constraint, Set<SquareChoice>> {
        Map::new(
            |c: Constraint| valid_constraint(c) && self.slot(con_index(c)) is Some,
            |c: Constraint| self.slot(con_index(c)).unwrap().to_set(),
        )
    }
}

impl Matrix {
    /// The sequence of choices in slot `k`, if open.
    pub closed spec fn slot(self, k: int) -> Option<Seq<SquareChoice>> {
        if 0 <= k < self.cols@.len() {
            match self.cols@[k] {
                Some(v) => Some(v@),
                None => None,
            }
        } else {
            None
        }
    }

    /// The number of open columns.
    pub closed spec fn n_open(self) -> nat {
        count_some(self.cols@)
    }

    /// Structural well-formedness: 324 slots, a correct open-column count,
    /// and every open column well-formed for its constraint.
    pub closed spec fn wf(self) -> bool {
        &&& self.cols@.len() == 324
        &&& self.open_count == count_some(self.cols@)
        &&& forall|k: int| 0 <= k < 324 ==> slot_ok(#[trigger] self.cols@[k], con_at(k))
    }

    /// An empty matrix: every constraint closed.
    pub fn new() -> (m: Matrix)
        ensures
            m.wf(),
            m@ == Map::<Constraint, Set<SquareChoice>>::empty(),
            m.n_open() == 0,
    {
        let mut cols: Vec<Option<Vec<SquareChoice>>> = Vec::new();
        while cols.len() < 324
            invariant
                cols@.len() <= 324,
                count_some(cols@) == 0,
                forall|k: int| 0 <= k < cols@.len() ==> (#[trigger] cols@[k]) is None,
            decreases 324 - cols@.len(),
        {
            let ghost prev = cols@;
            cols.push(None);
            proof {
                assert(cols@.drop_last() == prev);
            }
        }
        let m = Matrix { cols, open_count: 0 };
        proof {
            assert(m@ =~= Map::<Constraint, Set<SquareChoice>>::empty());
        }
        m
    }

    /// The current number of open columns (the "unsolved count").
    pub fn open_len(&self) -> (n: usize)
        requires
            self.wf(),
        ensures
            n == self.n_open(),
    {
        self.open_count
    }

    /// Whether the constraint is an open column.
    pub fn contains_col(&self, c: Constraint) -> (r: bool)
        requires
            self.wf(),
            valid_constraint(c),
        ensures
            r == self@.dom().contains(c),
    {
        let k = constraint_index(c);
        self.cols[k].is_some()
    }

    /// Whether every constraint is closed (the search's success condition).
    pub fn is_empty(&self) -> (r: bool)
        requires
            self.wf(),
        ensures
            r == (self.n_open() == 0),
            r ==> self@.dom() =~= Set::<Constraint>::empty(),
            !r ==> exists|c: Constraint| self@.dom().contains(c),
    {
        let r = self.open_count == 0;
        proof {
            if r {
                lemma_count_some_zero(self.cols@);
                assert forall|c: Constraint| !self@.dom().contains(c) by {
                    if valid_constraint(c) {
                        lemma_con_index_in_range(c);
                    }
                }
            } else {
                let k = lemma_count_some_nonzero(self.cols@);
                lemma_con_at_valid(k);
                assert(self@.dom().contains(con_at(k)));
            }
        }
        r
    }

    /// The choices of one column, if open (an observer for callers that
    /// inspect the matrix from outside).
    pub fn col_choices(&self, c: Constraint) -> (r: Option<Vec<SquareChoice>>)
        requires
            self.wf(),
            valid_constraint(c),
        ensures
            r is Some <==> self@.dom().contains(c),
            r is Some ==> r.unwrap()@.to_set() == self@[c] && r.unwrap()@.no_duplicates(),
    {
        let k = constraint_index(c);
        match &self.cols[k] {
            Some(v) => Some(v.clone()),
            None => None,
        }
    }

    /// Add a choice to a column, opening the column if it was closed.
    pub fn insert_choice(&mut self, c: Constraint, ch: SquareChoice)
        requires
            old(self).wf(),
            valid_constraint(c),
            valid_choice(ch),
            touches(ch, c),
            !(old(self)@.dom().contains(c) && old(self)@[c].contains(ch)),
        ensures
            final(self).wf(),
            final(self)@ == old(self)@.insert(
                c,
                (if old(self)@.dom().contains(c) {
                    old(self)@[c]
                } else {
                    Set::<SquareChoice>::empty()
                }).insert(ch),
            ),
            final(self).n_open() == old(self).n_open() + (if old(self)@.dom().contains(c) {
                0int
            } else {
                1int
            }),
    {
        let k = constraint_index(c);
        let ghost pre = *self;
        proof {
            lemma_con_index_in_range(c);
            assert(pre@.dom().contains(c) <==> pre.cols@[k as int] is Some);
        }
        if self.cols[k].is_some() {
            match &mut self.cols[k] {
                Some(v) => {
                    proof {
                        assert(!pre@[c].contains(ch));
                        assert(!v@.to_set().contains(ch));
                        assert(!v@.contains(ch));
                    }
                    let ghost prevcol = v@;
                    v.push(ch);
                    proof {
                        assert(v@.drop_last() == prevcol);
                        lemma_no_dup_push(prevcol, ch);
                        lemma_to_set_push(prevcol, ch);
                    }
                },
                None => {
                    proof {
                        assert(false);
                    }
                },
            }
            proof {
                lemma_count_some_update(pre.cols@, k as int, self.cols@[k as int]);
                assert(self.cols@ == pre.cols@.update(k as int, self.cols@[k as int]));
                assert forall|k2: int| 0 <= k2 < 324 implies slot_ok(
                    #[trigger] self.cols@[k2],
                    con_at(k2),
                ) by {
                    if k2 != k as int {
                        assert(self.cols@[k2] == pre.cols@[k2]);
                    } else {
                        lemma_con_index_in_range(c);
                        assert(con_at(k as int) == c);
                    }
                }
                lemma_view_after_col_update(pre, *self, k as int, c);
                assert(self.slot(k as int).unwrap().to_set() =~= pre@[c].insert(ch));
                assert(self@ =~= pre@.insert(c, pre@[c].insert(ch)));
            }
        } else {
            let mut nv: Vec<SquareChoice> = Vec::new();
            nv.push(ch);
            proof {
                lemma_count_some_update(pre.cols@, k as int, Some(nv));
                lemma_count_some_le_len(pre.cols@.update(k as int, Some(nv)));
                assert(self.open_count < 324);
                assert(nv@ == Seq::<SquareChoice>::empty().push(ch));
                lemma_to_set_push(Seq::<SquareChoice>::empty(), ch);
            }
            self.cols[k] = Some(nv);
            self.open_count = self.open_count + 1;
            proof {
                assert forall|k2: int| 0 <= k2 < 324 implies slot_ok(
                    #[trigger] self.cols@[k2],
                    con_at(k2),
                ) by {
                    if k2 != k as int {
                        assert(self.cols@[k2] == pre.cols@[k2]);
                    } else {
                        assert(con_at(k as int) == c);
                    }
                }
                lemma_view_after_col_update(pre, *self, k as int, c);
                assert(self.slot(k as int).unwrap().to_set() =~= Set::<
                    SquareChoice,
                >::empty().insert(ch));
                assert(self@ =~= pre@.insert(c, Set::<SquareChoice>::empty().insert(ch)));
            }
        }
    }
    /// Close the column in slot `k` and hand out its choices.
    fn take_col(&mut self, k: usize) -> (column: Vec<SquareChoice>)
        requires
            old(self).wf(),
            k < 324,
            old(self).cols@[k as int] is Some,
        ensures
            final(self).wf(),
            final(self).cols@ == old(self).cols@.update(k as int, None),
            column@ == old(self).cols@[k as int].unwrap()@,
            final(self).n_open() + 1 == old(self).n_open(),
    {
        let ghost pre = *self;
        let mut slot_v: Option<Vec<SquareChoice>> = None;
        core::mem::swap(&mut slot_v, &mut self.cols[k]);
        proof {
            assert(self.cols@ == pre.cols@.update(k as int, None));
            lemma_count_some_update(pre.cols@, k as int, None);
            assert forall|k2: int| 0 <= k2 < 324 implies slot_ok(
                #[trigger] self.cols@[k2],
                con_at(k2),
            ) by {
                if k2 != k as int {
                    assert(self.cols@[k2] == pre.cols@[k2]);
                }
            }
        }
        self.open_count = self.open_count - 1;
        slot_v.unwrap()
    }

    /// Remove a choice from the column in slot `k`, if the column is open and
    /// contains it; report whether a removal happened.
    fn remove_from_col(&mut self, k: usize, ch: SquareChoice) -> (removed: bool)
        requires
            old(self).wf(),
            k < 324,
        ensures
            final(self).wf(),
            removed == (old(self).cols@[k as int] is Some && old(self).cols@[k as int].unwrap()@.contains(
                ch,
            )),
            forall|k2: int|
                0 <= k2 < 324 && k2 != k ==> final(self).cols@[k2] == old(self).cols@[k2],
            final(self).cols@[k as int] is Some <==> old(self).cols@[k as int] is Some,
            old(self).cols@[k as int] is Some ==> final(self).cols@[k as int].unwrap()@.to_set()
                =~= old(self).cols@[k as int].unwrap()@.to_set().remove(ch),
            final(self).n_open() == old(self).n_open(),
    {
        let ghost pre = *self;
        let mut pos: usize = 0;
        let mut found = false;
        match &self.cols[k] {
            Some(v) => {
                while pos < v.len() && !found
                    invariant
                        pos <= v@.len(),
                        !found ==> forall|t: int| 0 <= t < pos ==> v@[t] != ch,
                        found ==> pos < v@.len() && v@[pos as int] == ch,
                    decreases v@.len() - pos + (if found {
                        0int
                    } else {
                        1int
                    }),
                {
                    if v[pos] == ch {
                        found = true;
                    } else {
                        pos = pos + 1;
                    }
                }
            },
            None => {},
        }
        proof {
            if pre.cols@[k as int] is Some {
                let orig = pre.cols@[k as int].unwrap()@;
                if found {
                    assert(orig.contains(ch));
                } else {
                    assert(forall|t: int| 0 <= t < orig.len() ==> orig[t] != ch);
                    assert(!orig.contains(ch));
                }
            }
        }
        if !found {
            proof {
                if pre.cols@[k as int] is Some {
                    let orig = pre.cols@[k as int].unwrap()@;
                    assert forall|y: SquareChoice| orig.to_set().contains(y) implies orig.to_set().remove(
                        ch,
                    ).contains(y) by {
                        assert(orig.contains(y));
                        assert(y != ch);
                    }
                    assert(orig.to_set() =~= orig.to_set().remove(ch));
                }
            }
            return false;
        }
        match &mut self.cols[k] {
            Some(v) => {
                let ghost orig = v@;
                v.remove(pos);
                proof {
                    lemma_remove_no_dup(orig, pos as int);
                    lemma_remove_to_set(orig, pos as int);
                    assert forall|j: int| 0 <= j < v@.len() implies valid_choice(#[trigger] v@[j])
                        && touches(v@[j], con_at(k as int)) by {
                        if j < pos as int {
                            assert(v@[j] == orig[j]);
                        } else {
                            assert(v@[j] == orig[j + 1]);
                        }
                    }
                }
            },
            None => {
                proof {
                    assert(false);
                }
            },
        }
        proof {
            assert(self.cols@ == pre.cols@.update(k as int, self.cols@[k as int]));
            lemma_count_some_update(pre.cols@, k as int, self.cols@[k as int]);
            assert forall|k2: int| 0 <= k2 < 324 implies slot_ok(
                #[trigger] self.cols@[k2],
                con_at(k2),
            ) by {
                if k2 != k as int {
                    assert(self.cols@[k2] == pre.cols@[k2]);
                }
            }
        }
        true
    }
}

/// The element set of an optional column (empty when closed).
pub open spec fn oset(o: Option<Vec<SquareChoice>>) -> Set<SquareChoice> {
    match o {
        Some(v) => v@.to_set(),
        None => Set::empty(),
    }
}

/// The matrix after covering `header`: the header's column is gone, and every
/// choice that was in it is struck from every remaining column.
pub open spec fn cover_result(v: Map<Constraint, Set<SquareChoice>>, header: Constraint) -> Map<
    Constraint,
    Set<SquareChoice>,
> {
    Map::new(
        |c: Constraint| v.dom().contains(c) && c != header,
        |c: Constraint| v[c].difference(v[header]),
    )
}

/// `rs` is exactly the removal record that covering `header` on matrix `v`
/// produces: its choices enumerate the header's column without repetition,
/// and each row's headers are exactly the other open constraints whose
/// columns contained that choice.
pub open spec fn record_for(
    v: Map<Constraint, Set<SquareChoice>>,
    header: Constraint,
    rs: Seq<Row>,
) -> bool {
    &&& v.dom().contains(header)
    &&& rec_choices(rs).no_duplicates()
    &&& rec_choices(rs).to_set() == v[header]
    &&& forall|i: int| 0 <= i < rs.len() ==> (#[trigger] rs[i]).headers@.no_duplicates()
    &&& forall|i: int, c: Constraint|
        #![trigger rs[i].headers@.contains(c)]
        #![trigger v[c].contains(rs[i].choice)]
        0 <= i < rs.len() ==> (rs[i].headers@.contains(c) <==> (v.dom().contains(c) && c != header
            && v[c].contains(rs[i].choice)))
}

/// Cover a constraint: remove its column from the matrix entirely, and strike
/// every choice of that column from every other column it appears in.  The
/// returned record captures, for each struck choice, the other columns it was
/// removed from, so that `uncover` can restore the matrix exactly.
pub fn cover(header: Constraint, m: &mut Matrix) -> (removals: Vec<Row>)
    requires
        old(m).wf(),
        valid_constraint(header),
        old(m)@.dom().contains(header),
    ensures
        final(m).wf(),
        final(m)@ == cover_result(old(m)@, header),
        record_for(old(m)@, header, removals@),
        final(m).n_open() + 1 == old(m).n_open(),
        forall|i: int|
            0 <= i < removals@.len() ==> valid_choice((#[trigger] removals@[i]).choice) && touches(
                removals@[i].choice,
                header,
            ),
        forall|i: int, c: Constraint|
            0 <= i < removals@.len() && (#[trigger] removals@[i].headers@.contains(c))
                ==> valid_constraint(c) && touches(removals@[i].choice, c),
{
    let ghost pre = *m;
    let hidx = constraint_index(header);
    proof {
        lemma_con_index_in_range(header);
        assert(pre.cols@[hidx as int] is Some);
        assert(slot_ok(pre.cols@[hidx as int], con_at(hidx as int)));
    }
    let column = m.take_col(hidx);
    let ghost cseq = column@;
    proof {
        assert(col_ok(cseq, header));
        assert(cseq.take(0).to_set() =~= Set::<SquareChoice>::empty());
    }
    let mut removals: Vec<Row> = Vec::new();
    let mut i: usize = 0;
    while i < column.len()
        invariant
            m.wf(),
            pre.wf(),
            valid_constraint(header),
            hidx == con_index(header),
            hidx < 324,
            pre.cols@[hidx as int] is Some,
            cseq == pre.cols@[hidx as int].unwrap()@,
            col_ok(cseq, header),
            column@ == cseq,
            i <= cseq.len(),
            forall|k2: int|
                0 <= k2 < 324 ==> ((#[trigger] m.cols@[k2]) is Some <==> (k2 != hidx
                    && pre.cols@[k2] is Some)),
            forall|k2: int|
                0 <= k2 < 324 && k2 != hidx ==> oset(#[trigger] m.cols@[k2]) =~= oset(
                    pre.cols@[k2],
                ).difference(cseq.take(i as int).to_set()),
            m.n_open() + 1 == pre.n_open(),
            removals@.len() == i,
            forall|t: int| 0 <= t < i ==> (#[trigger] removals@[t]).choice == cseq[t],
            forall|t: int| 0 <= t < i ==> (#[trigger] removals@[t]).headers@.no_duplicates(),
            forall|t: int, c: Constraint|
                #![trigger removals@[t].headers@.contains(c)]
                0 <= t < i ==> (removals@[t].headers@.contains(c) <==> (valid_constraint(c)
                    && con_index(c) != hidx && pre.cols@[con_index(c)] is Some && oset(
                    pre.cols@[con_index(c)],
                ).contains(cseq[t]))),
        decreases cseq.len() - i,
    {
        let choice = column[i];
        let mut hdrs: Vec<Constraint> = Vec::new();
        let mut k: usize = 0;
        while k < 324
            invariant
                m.wf(),
                pre.wf(),
                valid_constraint(header),
                hidx == con_index(header),
                hidx < 324,
                pre.cols@[hidx as int] is Some,
                cseq == pre.cols@[hidx as int].unwrap()@,
                col_ok(cseq, header),
                i < cseq.len(),
                choice == cseq[i as int],
                k <= 324,
                forall|k2: int|
                    0 <= k2 < 324 ==> ((#[trigger] m.cols@[k2]) is Some <==> (k2 != hidx
                        && pre.cols@[k2] is Some)),
                forall|k2: int|
                    0 <= k2 < 324 && k2 != hidx && k2 < k ==> oset(#[trigger] m.cols@[k2]) =~= oset(
                        pre.cols@[k2],
                    ).difference(cseq.take(i as int).to_set()).remove(choice),
                forall|k2: int|
                    0 <= k2 < 324 && k2 != hidx && k2 >= k ==> oset(#[trigger] m.cols@[k2]) =~= oset(
                        pre.cols@[k2],
                    ).difference(cseq.take(i as int).to_set()),
                m.n_open() + 1 == pre.n_open(),
                hdrs@.no_duplicates(),
                forall|t: int|
                    0 <= t < hdrs@.len() ==> valid_constraint(#[trigger] hdrs@[t]) && con_index(
                        hdrs@[t],
                    ) < k,
                forall|c: Constraint|
                    #[trigger] hdrs@.contains(c) <==> (valid_constraint(c) && 0 <= con_index(c) < k
                        && con_index(c) != hidx && pre.cols@[con_index(c)] is Some && oset(
                        pre.cols@[con_index(c)],
                    ).contains(choice)),
            decreases 324 - k,
        {
            let ghost m_at_k = *m;
            let ghost hdrs_at_k = hdrs@;
            if k != hidx {
                let removed = m.remove_from_col(k, choice);
                proof {
                    lemma_con_at_valid(k as int);
                    // The current column holds the original minus what was
                    // already struck; `choice` is fresh, so presence in the
                    // current column matches presence in the original.
                    if pre.cols@[k as int] is Some {
                        let mseq = m_at_k.cols@[k as int].unwrap()@;
                        assert(removed == mseq.contains(choice));
                        assert(mseq.to_set().contains(choice) == mseq.contains(choice));
                        assert(mseq.to_set() =~= oset(pre.cols@[k as int]).difference(
                            cseq.take(i as int).to_set(),
                        ));
                        assert(!cseq.take(i as int).to_set().contains(choice)) by {
                            if cseq.take(i as int).contains(choice) {
                                let t = choose|t: int|
                                    0 <= t < i && cseq.take(i as int)[t] == choice;
                                assert(cseq[t] == cseq[i as int]);
                                assert(false);
                            }
                        }
                        assert(removed == oset(pre.cols@[k as int]).contains(choice));
                    } else {
                        assert(!removed);
                    }
                }
                if removed {
                    let c = constraint_at(k);
                    proof {
                        assert(!hdrs@.contains(c));
                        lemma_no_dup_push(hdrs@, c);
                        lemma_to_set_push(hdrs@, c);
                    }
                    hdrs.push(c);
                    proof {
                        assert forall|c2: Constraint| #[trigger]
                            hdrs@.contains(c2) implies (valid_constraint(c2) && 0 <= con_index(c2)
                            < k + 1 && con_index(c2) != hidx && pre.cols@[con_index(c2)] is Some
                            && oset(pre.cols@[con_index(c2)]).contains(choice)) by {
                            if c2 != c {
                                assert(hdrs_at_k.contains(c2));
                            }
                        }
                        assert forall|c2: Constraint|
                            (valid_constraint(c2) && 0 <= con_index(c2) < k + 1 && con_index(c2)
                                != hidx && pre.cols@[con_index(c2)] is Some && oset(
                                pre.cols@[con_index(c2)],
                            ).contains(choice)) implies #[trigger] hdrs@.contains(c2) by {
                            if con_index(c2) == k as int {
                                lemma_con_index_injective(c2, c);
                                assert(hdrs@.last() == c);
                            } else {
                                assert(hdrs_at_k.contains(c2));
                                assert(hdrs@.drop_last() == hdrs_at_k);
                            }
                        }
                    }
                }
            }
            k = k + 1;
            proof {
                assert forall|c2: Constraint| #[trigger]
                    hdrs@.contains(c2) implies (valid_constraint(c2) && 0 <= con_index(c2) < k
                    && con_index(c2) != hidx && pre.cols@[con_index(c2)] is Some && oset(
                    pre.cols@[con_index(c2)],
                ).contains(choice)) by {}
            }
        }
        proof {
            assert(cseq.take(i + 1) == cseq.take(i as int).push(cseq[i as int]));
            lemma_to_set_push(cseq.take(i as int), cseq[i as int]);
        }
        let ghost hdrs_done = hdrs@;
        let ghost removals_before = removals@;
        removals.push(Row { choice, headers: hdrs });
        i = i + 1;
        proof {
            assert(removals@.drop_last() == removals_before);
            assert forall|k2: int| 0 <= k2 < 324 && k2 != hidx implies oset(
                #[trigger] m.cols@[k2],
            ) =~= oset(pre.cols@[k2]).difference(cseq.take(i as int).to_set()) by {
                assert(oset(m.cols@[k2]) =~= oset(pre.cols@[k2]).difference(
                    cseq.take(i - 1).to_set(),
                ).remove(choice));
                assert(cseq.take(i as int).to_set() =~= cseq.take(i - 1).to_set().insert(choice));
            }
            assert forall|t: int, c: Constraint|
                #![trigger removals@[t].headers@.contains(c)]
                0 <= t < i implies (removals@[t].headers@.contains(c) <==> (valid_constraint(c)
                && con_index(c) != hidx && pre.cols@[con_index(c)] is Some && oset(
                pre.cols@[con_index(c)],
            ).contains(cseq[t]))) by {
                if t < i - 1 {
                    assert(removals@[t] == removals_before[t]);
                } else {
                    assert(removals@[t].headers@ == hdrs_done);
                    if valid_constraint(c) {
                        lemma_con_index_in_range(c);
                    }
                }
            }
        }
    }
    proof {
        let v0 = pre@;
        assert(cseq.take(cseq.len() as int) == cseq);
        assert(cseq.to_set() == v0[header]);
        // The final store is exactly the covered matrix.
        assert forall|c: Constraint| m@.dom().contains(c) <==> (v0.dom().contains(c) && c
            != header) by {
            if valid_constraint(c) {
                lemma_con_index_in_range(c);
                if con_index(c) == hidx as int {
                    lemma_con_index_injective(c, header);
                }
            }
        }
        assert forall|c: Constraint| #[trigger] m@.dom().contains(c) implies m@[c] == v0[c].difference(
            v0[header],
        ) by {
            lemma_con_index_in_range(c);
            assert(oset(m.cols@[con_index(c)]) =~= oset(pre.cols@[con_index(c)]).difference(
                cseq.take(cseq.len() as int).to_set(),
            ));
            assert(m@[c] =~= v0[c].difference(v0[header]));
        }
        assert(m@ =~= cover_result(v0, header));
        // The record is exactly the cover record for the original matrix.
        assert(rec_choices(removals@) =~= cseq);
        assert(rec_choices(removals@).to_set() == v0[header]);
        assert forall|t: int, c: Constraint|
            #![trigger removals@[t].headers@.contains(c)]
            #![trigger v0[c].contains(removals@[t].choice)]
            0 <= t < removals@.len() implies (removals@[t].headers@.contains(c) <==> (
        v0.dom().contains(c) && c != header && v0[c].contains(removals@[t].choice))) by {
            if valid_constraint(c) {
                lemma_con_index_in_range(c);
                if con_index(c) == hidx as int {
                    lemma_con_index_injective(c, header);
                }
                assert(removals@[t].headers@.contains(c) <==> (valid_constraint(c) && con_index(c)
                    != hidx && pre.cols@[con_index(c)] is Some && oset(
                    pre.cols@[con_index(c)],
                ).contains(cseq[t])));
            } else {
                assert(!removals@[t].headers@.contains(c));
                assert(!v0.dom().contains(c));
            }
        }
        assert(record_for(v0, header, removals@));
        // Every recorded header is a constraint the struck choice satisfies.
        assert forall|t: int, c: Constraint|
            0 <= t < removals@.len() && (#[trigger] removals@[t].headers@.contains(c)) implies
        valid_constraint(c) && touches(removals@[t].choice, c) by {
            lemma_con_index_in_range(c);
            assert(slot_ok(pre.cols@[con_index(c)], con_at(con_index(c))));
            let cs = pre.cols@[con_index(c)].unwrap()@;
            assert(cs.to_set().contains(cseq[t]));
            let j = choose|j: int| 0 <= j < cs.len() && cs[j] == cseq[t];
            assert(touches(cs[j], c));
        }
    }
    removals
}

/// The choices that a removal record reinserts into column `c`: those whose
/// rows list `c` among the other columns they were removed from.
pub open spec fn reinserted(rs: Seq<Row>, c: Constraint) -> Set<SquareChoice> {
    Set::new(
        |ch: SquareChoice|
            exists|i: int|
                0 <= i < rs.len() && (#[trigger] rs[i]).choice == ch && rs[i].headers@.contains(c),
    )
}

/// The matrix after uncovering `header` with record `rs`: the header's column
/// is reopened with the recorded choices, and every recorded choice is put
/// back into every column it was removed from.
pub open spec fn uncover_result(
    v: Map<Constraint, Set<SquareChoice>>,
    header: Constraint,
    rs: Seq<Row>,
) -> Map<Constraint, Set<SquareChoice>> {
    Map::new(
        |c: Constraint| v.dom().contains(c) || c == header,
        |c: Constraint|
            if c == header {
                rec_choices(rs).to_set()
            } else {
                v[c].union(reinserted(rs, c))
            },
    )
}

/// Uncover a constraint: the exact inverse of the paired `cover` call.  The
/// header's full column is reinserted, and each recorded choice is put back
/// into each recorded other column.
pub fn uncover(header: Constraint, removals: &[Row], m: &mut Matrix)
    requires
        old(m).wf(),
        valid_constraint(header),
        !old(m)@.dom().contains(header),
        rec_choices(removals@).no_duplicates(),
        forall|i: int|
            0 <= i < removals@.len() ==> valid_choice((#[trigger] removals@[i]).choice) && touches(
                removals@[i].choice,
                header,
            ),
        forall|i: int| 0 <= i < removals@.len() ==> (#[trigger] removals@[i]).headers@.no_duplicates(),
        forall|i: int, c: Constraint|
            0 <= i < removals@.len() && (#[trigger] removals@[i].headers@.contains(c))
                ==> valid_constraint(c) && c != header && old(m)@.dom().contains(c) && touches(
                removals@[i].choice,
                c,
            ) && !old(m)@[c].contains(removals@[i].choice),
    ensures
        final(m).wf(),
        final(m)@ == uncover_result(old(m)@, header, removals@),
        final(m).n_open() == old(m).n_open() + 1,
{
    let ghost pre = *m;
    let ghost recs = rec_choices(removals@);
    // Rebuild the header's column from the record.
    let mut colvec: Vec<SquareChoice> = Vec::new();
    let mut t: usize = 0;
    while t < removals.len()
        invariant
            t <= removals@.len(),
            recs == rec_choices(removals@),
            colvec@ == recs.take(t as int),
        decreases removals@.len() - t,
    {
        colvec.push(removals[t].choice);
        proof {
            assert(recs.take(t + 1) == recs.take(t as int).push(recs[t as int]));
        }
        t = t + 1;
    }
    proof {
        assert(colvec@ == recs) by {
            assert(recs.take(recs.len() as int) == recs);
        }
    }
    let hidx = constraint_index(header);
    proof {
        lemma_con_index_in_range(header);
        assert(pre.cols@[hidx as int] is None);
        lemma_count_some_update(pre.cols@, hidx as int, Some(colvec));
        lemma_count_some_le_len(pre.cols@.update(hidx as int, Some(colvec)));
    }
    m.cols[hidx] = Some(colvec);
    m.open_count = m.open_count + 1;
    proof {
        assert forall|j: int| 0 <= j < recs.len() implies valid_choice(#[trigger] recs[j])
            && touches(recs[j], header) by {
            assert(recs[j] == removals@[j].choice);
        }
        assert(col_ok(recs, header));
        assert forall|k2: int| 0 <= k2 < 324 implies slot_ok(
            #[trigger] m.cols@[k2],
            con_at(k2),
        ) by {
            if k2 != hidx as int {
                assert(m.cols@[k2] == pre.cols@[k2]);
            } else {
                assert(con_at(hidx as int) == header);
            }
        }
        lemma_view_after_col_update(pre, *m, hidx as int, header);
        assert(m@.dom() =~= pre@.dom().insert(header));
        assert(m@[header] == recs.to_set());
        assert forall|c: Constraint| #[trigger] pre@.dom().contains(c) && c != header implies m@[c]
            =~= pre@[c].union(reinserted(removals@.take(0), c)) by {
            assert(reinserted(removals@.take(0), c) =~= Set::<SquareChoice>::empty());
        }
    }
    // Put each recorded choice back into each recorded other column.
    let mut t: usize = 0;
    while t < removals.len()
        invariant
            m.wf(),
            pre.wf(),
            valid_constraint(header),
            !pre@.dom().contains(header),
            recs == rec_choices(removals@),
            recs.no_duplicates(),
            forall|i: int|
                0 <= i < removals@.len() ==> valid_choice((#[trigger] removals@[i]).choice)
                    && touches(removals@[i].choice, header),
            forall|i: int|
                0 <= i < removals@.len() ==> (#[trigger] removals@[i]).headers@.no_duplicates(),
            forall|i: int, c: Constraint|
                0 <= i < removals@.len() && (#[trigger] removals@[i].headers@.contains(c))
                    ==> valid_constraint(c) && c != header && pre@.dom().contains(c) && touches(
                    removals@[i].choice,
                    c,
                ) && !pre@[c].contains(removals@[i].choice),
            t <= removals@.len(),
            m@.dom() =~= pre@.dom().insert(header),
            m@[header] == recs.to_set(),
            forall|c: Constraint|
                #[trigger] pre@.dom().contains(c) && c != header ==> m@[c] =~= pre@[c].union(
                    reinserted(removals@.take(t as int), c),
                ),
            m.n_open() == pre.n_open() + 1,
        decreases removals@.len() - t,
    {
        let ghost taken = removals@.take(t as int);
        let choice = removals[t].choice;
        let hlen = removals[t].headers.len();
        let mut j: usize = 0;
        while j < hlen
            invariant
                m.wf(),
                pre.wf(),
                valid_constraint(header),
                !pre@.dom().contains(header),
                recs == rec_choices(removals@),
                recs.no_duplicates(),
                forall|i: int|
                    0 <= i < removals@.len() ==> valid_choice((#[trigger] removals@[i]).choice)
                        && touches(removals@[i].choice, header),
                forall|i: int|
                    0 <= i < removals@.len() ==> (#[trigger] removals@[i]).headers@.no_duplicates(),
                forall|i: int, c: Constraint|
                    0 <= i < removals@.len() && (#[trigger] removals@[i].headers@.contains(c))
                        ==> valid_constraint(c) && c != header && pre@.dom().contains(c) && touches(
                        removals@[i].choice,
                        c,
                    ) && !pre@[c].contains(removals@[i].choice),
                t < removals@.len(),
                taken == removals@.take(t as int),
                choice == removals@[t as int].choice,
                hlen == removals@[t as int].headers@.len(),
                j <= hlen,
                m@.dom() =~= pre@.dom().insert(header),
                m@[header] == recs.to_set(),
                forall|c: Constraint|
                    #[trigger] pre@.dom().contains(c) && c != header ==> m@[c] =~= (if removals@[t as int].headers@.take(
                        j as int,
                    ).contains(c) {
                        pre@[c].union(reinserted(taken, c)).insert(choice)
                    } else {
                        pre@[c].union(reinserted(taken, c))
                    }),
                m.n_open() == pre.n_open() + 1,
            decreases hlen - j,
        {
            let c = removals[t].headers[j];
            let ghost hs = removals@[t as int].headers@;
            proof {
                assert(hs.contains(hs[j as int]));
                // The choice is not yet in column `c`: not originally, not
                // among earlier rows' reinsertions (their choices differ),
                // and not from this row (its headers are duplicate-free).
                assert(!m@[c].contains(choice)) by {
                    if hs.take(j as int).contains(c) {
                        let j2 = choose|j2: int| 0 <= j2 < j && hs.take(j as int)[j2] == c;
                        assert(hs[j2] == hs[j as int]);
                        assert(false);
                    }
                    if reinserted(taken, c).contains(choice) {
                        let i2 = choose|i2: int|
                            0 <= i2 < taken.len() && (#[trigger] taken[i2]).choice == choice
                                && taken[i2].headers@.contains(c);
                        assert(taken[i2] == removals@[i2]);
                        assert(rec_choices(removals@)[i2] == choice);
                        assert(rec_choices(removals@)[t as int] == choice);
                        assert(false);
                    }
                }
            }
            let ghost m_before = m@;
            m.insert_choice(c, choice);
            proof {
                assert(m@ == m_before.insert(c, m_before[c].insert(choice)));
                assert(hs.take(j + 1) == hs.take(j as int).push(hs[j as int]));
                assert(!hs.take(j as int).contains(c)) by {
                    if hs.take(j as int).contains(c) {
                        let j2 = choose|j2: int| 0 <= j2 < j && hs.take(j as int)[j2] == c;
                        assert(hs[j2] == hs[j as int]);
                        assert(false);
                    }
                }
                assert forall|c2: Constraint|
                    #[trigger] pre@.dom().contains(c2) && c2 != header implies m@[c2] =~= (if hs.take(
                    j + 1,
                ).contains(c2) {
                    pre@[c2].union(reinserted(taken, c2)).insert(choice)
                } else {
                    pre@[c2].union(reinserted(taken, c2))
                }) by {
                    lemma_push_contains(hs.take(j as int), hs[j as int], c2);
                    if c2 != c {
                        assert(m@[c2] == m_before[c2]);
                    } else {
                        assert(m@[c] == m_before[c].insert(choice));
                    }
                }
                assert(m@[header] == m_before[header]);
                assert(m@.dom() =~= pre@.dom().insert(header));
            }
            j = j + 1;
        }
        proof {
            let hs = removals@[t as int].headers@;
            assert(hs.take(hlen as int) == hs);
            assert(removals@.take(t + 1) == taken.push(removals@[t as int]));
            assert forall|c: Constraint|
                #[trigger] pre@.dom().contains(c) && c != header implies m@[c] =~= pre@[c].union(
                reinserted(removals@.take(t + 1), c),
            ) by {
                assert forall|ch: SquareChoice|
                    reinserted(removals@.take(t + 1), c).contains(ch) implies (reinserted(
                    taken,
                    c,
                ).contains(ch) || (ch == choice && hs.contains(c))) by {
                    let i2 = choose|i2: int|
                        0 <= i2 < t + 1 && (#[trigger] removals@.take(t + 1)[i2]).choice == ch
                            && removals@.take(t + 1)[i2].headers@.contains(c);
                    if i2 < t {
                        assert(taken[i2] == removals@[i2]);
                    }
                }
                assert forall|ch: SquareChoice| reinserted(taken, c).contains(ch) implies reinserted(
                    removals@.take(t + 1),
                    c,
                ).contains(ch) by {
                    let i2 = choose|i2: int|
                        0 <= i2 < t && (#[trigger] taken[i2]).choice == ch
                            && taken[i2].headers@.contains(c);
                    assert(removals@.take(t + 1)[i2] == taken[i2]);
                }
                if hs.contains(c) {
                    assert(removals@.take(t + 1)[t as int] == removals@[t as int]);
                    assert(reinserted(removals@.take(t + 1), c).contains(choice));
                }
            }
        }
        t = t + 1;
    }
    proof {
        assert(removals@.take(removals@.len() as int) == removals@);
        assert forall|c: Constraint| #[trigger]
            m@.dom().contains(c) implies uncover_result(pre@, header, removals@).dom().contains(c)
            && m@[c] == uncover_result(pre@, header, removals@)[c] by {
            if c == header {
                assert(m@[header] == recs.to_set());
            } else {
                assert(m@[c] =~= pre@[c].union(reinserted(removals@, c)));
            }
        }
        assert(m@ =~= uncover_result(pre@, header, removals@));
    }
}

/// Map-level well-formedness: every column of the abstract matrix holds only
/// valid choices that satisfy its constraint.
pub open spec fn map_wf(v: Map<Constraint, Set<SquareChoice>>) -> bool {
    forall|c: Constraint, ch: SquareChoice|
        #![trigger v[c].contains(ch)]
        v.dom().contains(c) && v[c].contains(ch) ==> valid_constraint(c) && valid_choice(ch)
            && touches(ch, c)
}

impl Matrix {
    /// A structurally well-formed matrix has a well-formed abstract view.
    pub proof fn lemma_wf_map(self)
        requires
            self.wf(),
        ensures
            map_wf(self@),
    {
        assert forall|c: Constraint, ch: SquareChoice|
            self@.dom().contains(c) && #[trigger] self@[c].contains(ch) implies valid_constraint(c)
            && valid_choice(ch) && touches(ch, c) by {
            lemma_con_index_in_range(c);
            let k = con_index(c);
            assert(slot_ok(self.cols@[k], con_at(k)));
            let cs = self.cols@[k].unwrap()@;
            assert(cs.contains(ch));
            let j = choose|j: int| 0 <= j < cs.len() && cs[j] == ch;
            assert(valid_choice(cs[j]) && touches(cs[j], c));
        }
    }
}

/// Pick the open constraint with the fewest remaining choices; ties go to the
/// lowest column index, so the selection is deterministic.
pub fn most_constrained(m: &Matrix) -> (header: Constraint)
    requires
        m.wf(),
        exists|c: Constraint| m@.dom().contains(c),
    ensures
        valid_constraint(header),
        m@.dom().contains(header),
        forall|c: Constraint| #[trigger] m@.dom().contains(c) ==> m@[header].len() <= m@[c].len(),
        forall|c: Constraint|
            #[trigger] m@.dom().contains(c) && m@[c].len() == m@[header].len() ==> con_index(header)
                <= con_index(c),
{
    let mut best_k: usize = 324;
    let mut best_len: usize = 0;
    let mut k: usize = 0;
    while k < 324
        invariant
            m.wf(),
            k <= 324,
            best_k <= 324,
            best_k == 324 ==> forall|k2: int| 0 <= k2 < k ==> !((#[trigger] m.cols@[k2]) is Some),
            best_k < 324 ==> ((best_k as int) < k as int && m.cols@[best_k as int] is Some
                && best_len == m.cols@[best_k as int].unwrap()@.len()),
            best_k < 324 ==> forall|k2: int|
                0 <= k2 < k && (#[trigger] m.cols@[k2]) is Some ==> (m.cols@[k2].unwrap()@.len()
                    > best_len || (m.cols@[k2].unwrap()@.len() == best_len && best_k as int <= k2)),
        decreases 324 - k,
    {
        let ghost bk0 = best_k;
        let ghost bl0 = best_len;
        let mut cur_some = false;
        let mut cur_len: usize = 0;
        match &m.cols[k] {
            Some(v) => {
                cur_some = true;
                cur_len = v.len();
            },
            None => {},
        }
        if cur_some && (best_k == 324 || cur_len < best_len) {
            best_k = k;
            best_len = cur_len;
        }
        proof {
            assert(cur_some == m.cols@[k as int] is Some);
            assert(cur_some ==> cur_len == m.cols@[k as int].unwrap()@.len());
            if best_k < 324 {
                assert forall|k2: int|
                    0 <= k2 < k + 1 && (#[trigger] m.cols@[k2]) is Some implies (
                m.cols@[k2].unwrap()@.len() > best_len || (m.cols@[k2].unwrap()@.len() == best_len
                    && best_k as int <= k2)) by {
                    if k2 == k as int {
                        assert(cur_some);
                        assert(cur_len == m.cols@[k2].unwrap()@.len());
                        if !(cur_some && (bk0 == 324 || cur_len < bl0)) {
                            assert(best_k == bk0 && best_len == bl0);
                            assert(cur_len >= bl0);
                            assert((bk0 as int) < (k as int));
                        }
                    } else {
                        if bk0 == 324 {
                            assert(!(m.cols@[k2] is Some));
                            assert(false);
                        } else {
                            assert(m.cols@[k2].unwrap()@.len() > bl0 || (
                            m.cols@[k2].unwrap()@.len() == bl0 && bk0 as int <= k2));
                        }
                    }
                }
            }
        }
        k = k + 1;
    }
    proof {
        let c0 = choose|c: Constraint| m@.dom().contains(c);
        lemma_con_index_in_range(c0);
        assert(m.cols@[con_index(c0)] is Some);
        if best_k == 324 {
            assert(!(m.cols@[con_index(c0)] is Some));
        }
        assert(best_k < 324);
    }
    let header = constraint_at(best_k);
    proof {
        assert(m@.dom().contains(header));
        assert(m@[header] == m.cols@[best_k as int].unwrap()@.to_set());
        m.cols@[best_k as int].unwrap()@.unique_seq_to_set();
        assert forall|c: Constraint| #[trigger] m@.dom().contains(c) implies m@[header].len()
            <= m@[c].len() && (m@[c].len() == m@[header].len() ==> con_index(header) <= con_index(
            c,
        )) by {
            lemma_con_index_in_range(c);
            let k2 = con_index(c);
            assert(slot_ok(m.cols@[k2], con_at(k2)));
            let cs = m.cols@[k2].unwrap()@;
            cs.unique_seq_to_set();
            assert(m@[c] == cs.to_set());
            if k2 == best_k as int {
                lemma_con_index_injective(c, header);
            }
        }
    }
    header
}

/// Uncovering with the record produced by a cover restores the matrix
/// exactly: the same open constraints, each with the same choice set.  This
/// is the structural symmetry at the heart of the search's reversibility.
pub proof fn lemma_cover_uncover_inverse(
    v: Map<Constraint, Set<SquareChoice>>,
    header: Constraint,
    rs: Seq<Row>,
)
    requires
        record_for(v, header, rs),
    ensures
        uncover_result(cover_result(v, header), header, rs) == v,
{
    let v1 = cover_result(v, header);
    let v2 = uncover_result(v1, header, rs);
    assert forall|c: Constraint| #[trigger] v.dom().contains(c) && c != header implies v2[c] =~= v[c] by {
        assert forall|ch: SquareChoice| #[trigger] v2[c].contains(ch) implies v[c].contains(ch) by {
            if reinserted(rs, c).contains(ch) {
                let i = choose|i: int|
                    0 <= i < rs.len() && (#[trigger] rs[i]).choice == ch && rs[i].headers@.contains(
                        c,
                    );
                assert(rs[i].headers@.contains(c));
            }
        }
        assert forall|ch: SquareChoice| #[trigger] v[c].contains(ch) implies v2[c].contains(ch) by {
            if v[header].contains(ch) {
                assert(rec_choices(rs).to_set().contains(ch));
                assert(rec_choices(rs).contains(ch));
                let i = choose|i: int|
                    0 <= i < rec_choices(rs).len() && rec_choices(rs)[i] == ch;
                assert(rs[i].choice == ch);
                assert(rs[i].headers@.contains(c));
                assert(reinserted(rs, c).contains(ch));
            } else {
                assert(v1[c].contains(ch));
            }
        }
    }
    assert(v2 =~~= v);
}

/// A trace of nested covers: each record matches the matrix that its cover
/// call saw.
pub open spec fn covers_ok(
    v: Map<Constraint, Set<SquareChoice>>,
    ps: Seq<(Constraint, Seq<Row>)>,
) -> bool
    decreases ps.len(),
{
    ps.len() == 0 || (record_for(v, ps[0].0, ps[0].1) && covers_ok(
        cover_result(v, ps[0].0),
        ps.skip(1),
    ))
}

/// The matrix after performing a trace of covers in order.
pub open spec fn covers_result(
    v: Map<Constraint, Set<SquareChoice>>,
    ps: Seq<(Constraint, Seq<Row>)>,
) -> Map<Constraint, Set<SquareChoice>>
    decreases ps.len(),
{
    if ps.len() == 0 {
        v
    } else {
        covers_result(cover_result(v, ps[0].0), ps.skip(1))
    }
}

/// The matrix after undoing a trace of covers in reverse order (innermost
/// first).
pub open spec fn uncovers_reverse(
    v: Map<Constraint, Set<SquareChoice>>,
    ps: Seq<(Constraint, Seq<Row>)>,
) -> Map<Constraint, Set<SquareChoice>>
    decreases ps.len(),
{
    if ps.len() == 0 {
        v
    } else {
        uncovers_reverse(uncover_result(v, ps.last().0, ps.last().1), ps.drop_last())
    }
}

proof fn lemma_uncovers_reverse_front(
    w: Map<Constraint, Set<SquareChoice>>,
    ps: Seq<(Constraint, Seq<Row>)>,
)
    requires
        ps.len() > 0,
    ensures
        uncovers_reverse(w, ps) == uncover_result(
            uncovers_reverse(w, ps.skip(1)),
            ps[0].0,
            ps[0].1,
        ),
    decreases ps.len(),
{
    if ps.len() == 1 {
        assert(ps.last() == ps[0]);
        assert(ps.drop_last() =~= Seq::<(Constraint, Seq<Row>)>::empty());
        assert(ps.skip(1) =~= Seq::<(Constraint, Seq<Row>)>::empty());
        let w1 = uncover_result(w, ps.last().0, ps.last().1);
        assert(uncovers_reverse(w, ps) == uncovers_reverse(w1, ps.drop_last()));
        assert(uncovers_reverse(w1, ps.drop_last()) == w1);
        assert(uncovers_reverse(w, ps.skip(1)) == w);
    } else {
        let w1 = uncover_result(w, ps.last().0, ps.last().1);
        assert(uncovers_reverse(w, ps) == uncovers_reverse(w1, ps.drop_last()));
        lemma_uncovers_reverse_front(w1, ps.drop_last());
        assert(ps.drop_last()[0] == ps[0]);
        assert(ps.drop_last().skip(1) =~= ps.skip(1).drop_last());
        assert(ps.skip(1).len() > 0);
        assert(ps.skip(1).last() == ps.last());
        assert(ps.skip(1).drop_last() == ps.drop_last().skip(1));
        assert(uncovers_reverse(w, ps.skip(1)) == uncovers_reverse(
            uncover_result(w, ps.skip(1).last().0, ps.skip(1).last().1),
            ps.skip(1).drop_last(),
        ));
        assert(uncover_result(w, ps.skip(1).last().0, ps.skip(1).last().1) == w1);
        assert(uncovers_reverse(w, ps.skip(1)) == uncovers_reverse(w1, ps.drop_last().skip(1)));
        assert(uncovers_reverse(w1, ps.drop_last()) == uncover_result(
            uncovers_reverse(w1, ps.drop_last().skip(1)),
            ps[0].0,
            ps[0].1,
        ));
    }
}

/// Any sequence of cover calls, undone by the same calls' uncovers in reverse
/// order, restores the matrix it started from.
pub proof fn lemma_covers_then_uncovers(
    v: Map<Constraint, Set<SquareChoice>>,
    ps: Seq<(Constraint, Seq<Row>)>,
)
    requires
        covers_ok(v, ps),
    ensures
        uncovers_reverse(covers_result(v, ps), ps) == v,
    decreases ps.len(),
{
    if ps.len() > 0 {
        let v1 = cover_result(v, ps[0].0);
        lemma_covers_then_uncovers(v1, ps.skip(1));
        lemma_uncovers_reverse_front(covers_result(v, ps), ps);
        lemma_cover_uncover_inverse(v, ps[0].0, ps[0].1);
    }
}

/// Membership in a sequence extended by one element.
proof fn lemma_push_contains<A>(s: Seq<A>, x: A, y: A)
    ensures
        s.push(x).contains(y) <==> (s.contains(y) || y == x),
{
    if s.push(x).contains(y) {
        let i = choose|i: int| 0 <= i < s.push(x).len() && s.push(x)[i] == y;
        if i < s.len() {
            assert(s[i] == y);
        }
    }
    if s.contains(y) {
        let i = choose|i: int| 0 <= i < s.len() && s[i] == y;
        assert(s.push(x)[i] == y);
    }
    assert(s.push(x)[s.len() as int] == x);
}

/// Removing an index from a duplicate-free sequence keeps it duplicate-free.
proof fn lemma_remove_no_dup<A>(s: Seq<A>, j: int)
    requires
        s.no_duplicates(),
        0 <= j < s.len(),
    ensures
        s.remove(j).no_duplicates(),
{
    let t = s.remove(j);
    s.remove_ensures(j);
    assert forall|a: int, b: int| 0 <= a < t.len() && 0 <= b < t.len() && a != b implies t[a]
        != t[b] by {
        let a0 = if a < j {
            a
        } else {
            a + 1
        };
        let b0 = if b < j {
            b
        } else {
            b + 1
        };
        assert(t[a] == s[a0] && t[b] == s[b0]);
    }
}

/// Removing index `j` from a duplicate-free sequence removes exactly `s[j]`
/// from its element set.
proof fn lemma_remove_to_set<A>(s: Seq<A>, j: int)
    requires
        s.no_duplicates(),
        0 <= j < s.len(),
    ensures
        s.remove(j).to_set() =~= s.to_set().remove(s[j]),
{
    let t = s.remove(j);
    s.remove_ensures(j);
    assert forall|y: A| #[trigger] t.contains(y) implies s.contains(y) && y != s[j] by {
        let i = choose|i: int| 0 <= i < t.len() && t[i] == y;
        let i0 = if i < j {
            i
        } else {
            i + 1
        };
        assert(s[i0] == y);
    }
    assert forall|y: A| s.contains(y) && y != s[j] implies #[trigger] t.contains(y) by {
        let i = choose|i: int| 0 <= i < s.len() && s[i] == y;
        if i < j {
            assert(t[i] == y);
        } else {
            assert(i != j);
            assert(t[i - 1] == y);
        }
    }
}

/// Pushing an element onto a sequence inserts it into the element set.
proof fn lemma_to_set_push<A>(s: Seq<A>, x: A)
    ensures
        s.push(x).to_set() =~= s.to_set().insert(x),
{
    let t = s.push(x);
    assert forall|y: A| #[trigger] t.contains(y) implies s.contains(y) || y == x by {
        let i = choose|i: int| 0 <= i < t.len() && t[i] == y;
        if i < s.len() {
            assert(s[i] == y);
        }
    }
    assert forall|y: A| #[trigger] s.contains(y) implies t.contains(y) by {
        let i = choose|i: int| 0 <= i < s.len() && s[i] == y;
        assert(t[i] == y);
    }
    assert(t[s.len() as int] == x);
    assert(t.contains(x));
}

/// A sequence with no duplicates stays duplicate-free when a fresh element is
/// pushed.
proof fn lemma_no_dup_push<A>(s: Seq<A>, x: A)
    requires
        s.no_duplicates(),
        !s.contains(x),
    ensures
        s.push(x).no_duplicates(),
{
    let t = s.push(x);
    assert forall|i: int, j: int| 0 <= i < t.len() && 0 <= j < t.len() && i != j implies t[i]
        != t[j] by {
        if i < s.len() && j < s.len() {
        } else if i < s.len() {
            assert(s[i] == t[i]);
        } else {
            assert(s[j] == t[j]);
        }
    }
}

/// Updating one slot changes `count_some` by the difference of the openness
/// of the old and new values.
proof fn lemma_count_some_update(s: Seq<Option<Vec<SquareChoice>>>, k: int, x: Option<
    Vec<SquareChoice>,
>)
    requires
        0 <= k < s.len(),
    ensures
        count_some(s.update(k, x)) + (if s[k] is Some {
            1nat
        } else {
            0nat
        }) == count_some(s) + (if x is Some {
            1nat
        } else {
            0nat
        }),
    decreases s.len(),
{
    let t = s.update(k, x);
    if k == s.len() - 1 {
        assert(t.drop_last() == s.drop_last());
        assert(t.last() == x);
        assert(s.last() == s[k]);
    } else {
        assert(t.drop_last() == s.drop_last().update(k, x));
        assert(t.last() == s.last());
        lemma_count_some_update(s.drop_last(), k, x);
    }
}

/// A store with no open slot has count zero, and conversely.
proof fn lemma_count_some_zero(s: Seq<Option<Vec<SquareChoice>>>)
    requires
        count_some(s) == 0,
    ensures
        forall|k: int| 0 <= k < s.len() ==> !((#[trigger] s[k]) is Some),
    decreases s.len(),
{
    if s.len() > 0 {
        lemma_count_some_zero(s.drop_last());
        assert forall|k: int| 0 <= k < s.len() implies !((#[trigger] s[k]) is Some) by {
            if k < s.len() - 1 {
                assert(s.drop_last()[k] == s[k]);
            } else {
                assert(s.last() == s[k]);
            }
        }
    }
}

/// A store with a nonzero count has an open slot.
proof fn lemma_count_some_nonzero(s: Seq<Option<Vec<SquareChoice>>>) -> (k: int)
    requires
        count_some(s) > 0,
    ensures
        0 <= k < s.len(),
        s[k] is Some,
    decreases s.len(),
{
    if s.last() is Some {
        s.len() - 1
    } else {
        let k = lemma_count_some_nonzero(s.drop_last());
        assert(s.drop_last()[k] == s[k]);
        k
    }
}

/// The count of open slots never exceeds the number of slots.
proof fn lemma_count_some_le_len(s: Seq<Option<Vec<SquareChoice>>>)
    ensures
        count_some(s) <= s.len(),
    decreases s.len(),
{
    if s.len() > 0 {
        lemma_count_some_le_len(s.drop_last());
    }
}

/// After updating the slot of constraint `c`, the view of every other
/// constraint is unchanged.
proof fn lemma_view_after_col_update(pre: Matrix, post: Matrix, k: int, c: Constraint)
    requires
        pre.wf(),
        valid_constraint(c),
        con_index(c) == k,
        post.cols@.len() == pre.cols@.len(),
        forall|k2: int| 0 <= k2 < pre.cols@.len() && k2 != k ==> post.cols@[k2] == pre.cols@[k2],
    ensures
        forall|c2: Constraint|
            c2 != c ==> (post@.dom().contains(c2) <==> pre@.dom().contains(c2)),
        forall|c2: Constraint|
            c2 != c && pre@.dom().contains(c2) ==> post@[c2] == pre@[c2],
{
    assert forall|c2: Constraint| c2 != c implies (post@.dom().contains(c2)
        <==> pre@.dom().contains(c2)) by {
        if valid_constraint(c2) {
            lemma_con_index_in_range(c2);
            if con_index(c2) == k {
                lemma_con_index_injective(c, c2);
            }
            assert(post.cols@[con_index(c2)] == pre.cols@[con_index(c2)]);
        }
    }
    assert forall|c2: Constraint| c2 != c && pre@.dom().contains(c2) implies post@[c2]
        == pre@[c2] by {
        lemma_con_index_in_range(c2);
        if con_index(c2) == k {
            lemma_con_index_injective(c, c2);
        }
        assert(post.cols@[con_index(c2)] == pre.cols@[con_index(c2)]);
    }
}

} // verus!
