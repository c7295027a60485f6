//! The recursive backtracking search over the exact-cover matrix.
//!
//! Each call either solves the remaining matrix (committing choices to the
//! state) or restores the matrix and state exactly as it found them.  The
//! search invariant ties the state to the matrix: open columns hold only
//! choices compatible with every committed choice, a choice present in one of
//! its columns is present in all of them, and committed choices never touch
//! open constraints.

use vstd::prelude::*;

use crate::matrix::{
    cover, cover_result, map_wf, most_constrained, rec_choices, record_for, uncover, Matrix, Row,
};
use crate::model::{
    pairwise_ok, shares_constraint, touches, valid_choice, valid_constraint, Constraint,
    SquareChoice,
};

verus! {

/// Every choice present in some open column is present in the column of each
/// open constraint it satisfies, and all constraints it satisfies are open.
pub open spec fn active_closed(v: Map<Constraint, Set<SquareChoice>>) -> bool {
    forall|c1: Constraint, ch: SquareChoice, c2: Constraint|
        #![trigger v[c1].contains(ch), touches(ch, c2)]
        v.dom().contains(c1) && v[c1].contains(ch) && touches(ch, c2) ==> v.dom().contains(c2)
            && v[c2].contains(ch)
}

/// No choice in any open column shares a constraint with a committed choice.
pub open spec fn state_compat(s: Seq<SquareChoice>, v: Map<Constraint, Set<SquareChoice>>) -> bool {
    forall|c: Constraint, ch: SquareChoice, i: int|
        #![trigger v[c].contains(ch), s[i]]
        v.dom().contains(c) && v[c].contains(ch) && 0 <= i < s.len() ==> !shares_constraint(
            ch,
            s[i],
        )
}

/// No committed choice satisfies an open constraint.
pub open spec fn state_disjoint(s: Seq<SquareChoice>, v: Map<Constraint, Set<SquareChoice>>) -> bool {
    forall|c: Constraint, i: int|
        #![trigger v.dom().contains(c), s[i]]
        v.dom().contains(c) && 0 <= i < s.len() ==> !touches(s[i], c)
}

/// The invariant of the search: a well-formed matrix view, closed under the
/// choice/constraint incidence, compatible with and disjoint from the
/// committed state, whose entries pairwise satisfy no common constraint.
pub open spec fn search_inv(s: Seq<SquareChoice>, v: Map<Constraint, Set<SquareChoice>>) -> bool {
    &&& map_wf(v)
    &&& active_closed(v)
    &&& state_compat(s, v)
    &&& state_disjoint(s, v)
    &&& pairwise_ok(s)
}

/// `es` is an exact cover of the matrix: it satisfies every open constraint,
/// no two of its choices satisfy a common constraint, and each of its choices
/// is a candidate of some open column.
#[verifier::opaque]
pub open spec fn exact_cover(es: Set<SquareChoice>, v: Map<Constraint, Set<SquareChoice>>) -> bool {
    &&& forall|c: Constraint|
        #[trigger] v.dom().contains(c) ==> exists|e: SquareChoice|
            es.contains(e) && #[trigger] v[c].contains(e)
    &&& forall|e1: SquareChoice, e2: SquareChoice|
        #![trigger es.contains(e1), es.contains(e2)]
        es.contains(e1) && es.contains(e2) && e1 != e2 ==> !shares_constraint(e1, e2)
    &&& forall|e: SquareChoice|
        #[trigger] es.contains(e) ==> exists|c: Constraint|
            v.dom().contains(c) && #[trigger] v[c].contains(e)
}

/// The set of choices a state holds from position `n` on.
pub open spec fn committed_from(s: Seq<SquareChoice>, n: int) -> Set<SquareChoice> {
    Set::new(|e: SquareChoice| exists|i: int| n <= i < s.len() && (#[trigger] s[i]) == e)
}

/// Covering the constraints of `choice` removes no choice that is free of
/// conflicts with it: whatever column survives keeps all its
/// `choice`-compatible candidates.
#[verifier::opaque]
pub open spec fn kept_compatible(
    v0: Map<Constraint, Set<SquareChoice>>,
    w: Map<Constraint, Set<SquareChoice>>,
    choice: SquareChoice,
) -> bool {
    forall|c: Constraint, ch: SquareChoice|
        #![trigger v0[c].contains(ch)]
        w.dom().contains(c) && v0[c].contains(ch) && !shares_constraint(ch, choice) ==> w[c].contains(
            ch,
        )
}

/// Each constraint open after the descent keeps a cover choice other than
/// `choice`.
#[verifier::rlimit(20)]
proof fn lemma_descends_at_least(
    es: Set<SquareChoice>,
    v0: Map<Constraint, Set<SquareChoice>>,
    vk: Map<Constraint, Set<SquareChoice>>,
    choice: SquareChoice,
)
    requires
        forall|c: Constraint|
            #[trigger] vk.dom().contains(c) ==> v0.dom().contains(c) && !touches(choice, c),
        kept_compatible(v0, vk, choice),
        forall|c: Constraint|
            v0.dom().contains(c) && #[trigger] v0[c].contains(choice) ==> touches(choice, c),
        forall|c: Constraint|
            #[trigger] v0.dom().contains(c) ==> exists|e: SquareChoice|
                es.contains(e) && #[trigger] v0[c].contains(e),
        forall|e1: SquareChoice, e2: SquareChoice|
            #![trigger es.contains(e1), es.contains(e2)]
            es.contains(e1) && es.contains(e2) && e1 != e2 ==> !shares_constraint(e1, e2),
        es.contains(choice),
    ensures
        forall|c: Constraint|
            #[trigger] vk.dom().contains(c) ==> exists|e: SquareChoice|
                es.remove(choice).contains(e) && #[trigger] vk[c].contains(e),
{
    reveal(kept_compatible);
    assert forall|c: Constraint| #[trigger] vk.dom().contains(c) implies exists|e: SquareChoice|
        es.remove(choice).contains(e) && #[trigger] vk[c].contains(e) by {
        assert(v0.dom().contains(c));
        let e = choose|e: SquareChoice| es.contains(e) && #[trigger] v0[c].contains(e);
        if e == choice {
            assert(touches(choice, c));
            assert(false);
        }
        assert(!shares_constraint(e, choice));
        assert(vk[c].contains(e));
        assert(es.remove(choice).contains(e));
    }
}

/// Each choice of the descended cover remains a candidate of some column
/// that stays open.
#[verifier::rlimit(20)]
proof fn lemma_descends_support(
    es: Set<SquareChoice>,
    v0: Map<Constraint, Set<SquareChoice>>,
    vk: Map<Constraint, Set<SquareChoice>>,
    choice: SquareChoice,
)
    requires
        forall|c: Constraint|
            v0.dom().contains(c) && #[trigger] touches(choice, c) ==> v0[c].contains(choice),
        forall|c: Constraint|
            #[trigger] v0.dom().contains(c) && !touches(choice, c) ==> vk.dom().contains(c),
        kept_compatible(v0, vk, choice),
        forall|e1: SquareChoice, e2: SquareChoice|
            #![trigger es.contains(e1), es.contains(e2)]
            es.contains(e1) && es.contains(e2) && e1 != e2 ==> !shares_constraint(e1, e2),
        forall|e: SquareChoice|
            #[trigger] es.contains(e) ==> exists|c: Constraint|
                v0.dom().contains(c) && #[trigger] v0[c].contains(e) && touches(e, c),
        es.contains(choice),
    ensures
        forall|e: SquareChoice|
            #[trigger] es.remove(choice).contains(e) ==> exists|c: Constraint|
                vk.dom().contains(c) && #[trigger] vk[c].contains(e),
{
    reveal(kept_compatible);
    assert forall|e: SquareChoice| #[trigger] es.remove(choice).contains(e) implies exists|
        c: Constraint,
    |
        vk.dom().contains(c) && #[trigger] vk[c].contains(e) by {
        let c = choose|c: Constraint|
            v0.dom().contains(c) && #[trigger] v0[c].contains(e) && touches(e, c);
        assert(touches(e, c));
        assert(!touches(choice, c)) by {
            if touches(choice, c) {
                assert(v0[c].contains(choice));
                assert(shares_constraint(e, choice));
            }
        }
        assert(vk.dom().contains(c));
        assert(!shares_constraint(e, choice));
        assert(vk[c].contains(e));
    }
}

/// The three conjuncts of an exact cover, extracted, with each cover choice
/// paired with a column it satisfies.
#[verifier::rlimit(30)]
proof fn lemma_ec_parts(es: Set<SquareChoice>, v: Map<Constraint, Set<SquareChoice>>)
    requires
        map_wf(v),
        exact_cover(es, v),
    ensures
        forall|c: Constraint|
            #[trigger] v.dom().contains(c) ==> exists|e: SquareChoice|
                es.contains(e) && #[trigger] v[c].contains(e),
        forall|e1: SquareChoice, e2: SquareChoice|
            #![trigger es.contains(e1), es.contains(e2)]
            es.contains(e1) && es.contains(e2) && e1 != e2 ==> !shares_constraint(e1, e2),
        forall|e: SquareChoice|
            #[trigger] es.contains(e) ==> exists|c: Constraint|
                v.dom().contains(c) && #[trigger] v[c].contains(e) && touches(e, c),
{
    reveal(exact_cover);
    assert forall|e: SquareChoice| #[trigger] es.contains(e) implies exists|c: Constraint|
        v.dom().contains(c) && #[trigger] v[c].contains(e) && touches(e, c) by {
        let c = choose|c: Constraint| v.dom().contains(c) && #[trigger] v[c].contains(e);
        assert(touches(e, c));
    }
}

/// An exact cover, assembled from its three conjuncts.
#[verifier::rlimit(30)]
proof fn lemma_ec_build(es: Set<SquareChoice>, v: Map<Constraint, Set<SquareChoice>>)
    requires
        forall|c: Constraint|
            #[trigger] v.dom().contains(c) ==> exists|e: SquareChoice|
                es.contains(e) && #[trigger] v[c].contains(e),
        forall|e1: SquareChoice, e2: SquareChoice|
            #![trigger es.contains(e1), es.contains(e2)]
            es.contains(e1) && es.contains(e2) && e1 != e2 ==> !shares_constraint(e1, e2),
        forall|e: SquareChoice|
            #[trigger] es.contains(e) ==> exists|c: Constraint|
                v.dom().contains(c) && #[trigger] v[c].contains(e),
    ensures
        exact_cover(es, v),
{
    reveal(exact_cover);
}

/// On a successful recursion, this row's choice together with the deeper
/// cover is an exact cover of the matrix at entry.
#[verifier::rlimit(50)]
proof fn lemma_success_cover(
    s0: Seq<SquareChoice>,
    choice: SquareChoice,
    stfinal: Seq<SquareChoice>,
    v0: Map<Constraint, Set<SquareChoice>>,
    v1: Map<Constraint, Set<SquareChoice>>,
    vk: Map<Constraint, Set<SquareChoice>>,
    header: Constraint,
)
    requires
        map_wf(v0),
        active_closed(v0),
        v0.dom().contains(header),
        v0[header].contains(choice),
        v1 == cover_result(v0, header),
        forall|c: Constraint|
            #[trigger] vk.dom().contains(c) ==> v1.dom().contains(c) && vk[c].subset_of(v1[c]),
        forall|c: Constraint|
            #[trigger] v0.dom().contains(c) && !touches(choice, c) ==> vk.dom().contains(c),
        s0.len() < stfinal.len(),
        stfinal[s0.len() as int] == choice,
        pairwise_ok(stfinal),
        exact_cover(committed_from(stfinal, s0.len() as int + 1), vk),
    ensures
        exact_cover(committed_from(stfinal, s0.len() as int), v0),
{
    reveal(exact_cover);
    let es_rec = committed_from(stfinal, s0.len() as int + 1);
    let es_all = committed_from(stfinal, s0.len() as int);
    assert(es_all.contains(choice));
    assert forall|e: SquareChoice| #[trigger] es_rec.contains(e) implies es_all.contains(e) by {
        let i = choose|i: int| s0.len() + 1 <= i < stfinal.len() && (#[trigger] stfinal[i]) == e;
        assert(s0.len() <= i < stfinal.len() && stfinal[i] == e);
    }
    assert forall|c: Constraint| #[trigger] v0.dom().contains(c) implies exists|e: SquareChoice|
        es_all.contains(e) && #[trigger] v0[c].contains(e) by {
        if touches(choice, c) {
            assert(v0[c].contains(choice));
            assert(es_all.contains(choice) && v0[c].contains(choice));
        } else {
            assert(vk.dom().contains(c));
            let e = choose|e: SquareChoice| es_rec.contains(e) && #[trigger] vk[c].contains(e);
            assert(vk[c].subset_of(v1[c]));
            assert(v1[c].contains(e));
            assert(v0[c].contains(e));
            assert(es_all.contains(e) && v0[c].contains(e));
        }
    }
    assert forall|e1: SquareChoice, e2: SquareChoice|
        #![trigger es_all.contains(e1), es_all.contains(e2)]
        es_all.contains(e1) && es_all.contains(e2) && e1 != e2 implies !shares_constraint(
        e1,
        e2,
    ) by {
        let i1 = choose|i: int| s0.len() <= i < stfinal.len() && (#[trigger] stfinal[i]) == e1;
        let i2 = choose|i: int| s0.len() <= i < stfinal.len() && (#[trigger] stfinal[i]) == e2;
        assert(i1 != i2);
    }
    assert forall|e: SquareChoice| #[trigger] es_all.contains(e) implies exists|c: Constraint|
        v0.dom().contains(c) && #[trigger] v0[c].contains(e) by {
        if es_rec.contains(e) {
            let c = choose|c: Constraint| vk.dom().contains(c) && #[trigger] vk[c].contains(e);
            assert(vk[c].subset_of(v1[c]));
            assert(v1[c].contains(e));
            assert(v0.dom().contains(c) && v0[c].contains(e));
        } else {
            let i = choose|i: int| s0.len() <= i < stfinal.len() && (#[trigger] stfinal[i]) == e;
            assert(i == s0.len());
            assert(e == choice);
            assert(v0.dom().contains(header) && v0[header].contains(choice));
        }
    }
}

/// Covering preserves closure under the choice/constraint incidence.
proof fn lemma_active_closed_cover(v: Map<Constraint, Set<SquareChoice>>, h: Constraint)
    requires
        active_closed(v),
        v.dom().contains(h),
    ensures
        active_closed(cover_result(v, h)),
{
    let w = cover_result(v, h);
    assert forall|c1: Constraint, ch: SquareChoice, c2: Constraint|
        w.dom().contains(c1) && #[trigger] w[c1].contains(ch) && #[trigger] touches(
            ch,
            c2,
        ) implies w.dom().contains(c2) && w[c2].contains(ch) by {
        assert(v[c1].contains(ch));
        assert(v.dom().contains(c2) && v[c2].contains(ch));
        assert(!v[h].contains(ch));
        if c2 == h {
            assert(false);
        }
    }
}

/// Covering preserves map-level well-formedness.
proof fn lemma_map_wf_cover(v: Map<Constraint, Set<SquareChoice>>, h: Constraint)
    requires
        map_wf(v),
        v.dom().contains(h),
    ensures
        map_wf(cover_result(v, h)),
{
    let w = cover_result(v, h);
    assert forall|c: Constraint, ch: SquareChoice|
        w.dom().contains(c) && #[trigger] w[c].contains(ch) implies valid_constraint(c)
        && valid_choice(ch) && touches(ch, c) by {
        assert(v[c].contains(ch));
    }
}

/// Solve the exact-cover problem by recursive backtracking.  On success the
/// matrix is empty and the appended choices cover every constraint that was
/// open, with the whole state free of doubly satisfied constraints; on
/// failure the state and the matrix are exactly as they were.
#[verifier::rlimit(100)]
pub fn solve(state: &mut Vec<SquareChoice>, constraints: &mut Matrix) -> (r: bool)
    requires
        old(constraints).wf(),
        search_inv(old(state)@, old(constraints)@),
    ensures
        final(constraints).wf(),
        old(state)@.is_prefix_of(final(state)@),
        !r ==> final(state)@ == old(state)@ && final(constraints)@ == old(constraints)@
            && final(constraints).n_open() == old(constraints).n_open(),
        r ==> final(constraints)@.dom() =~= Set::<Constraint>::empty(),
        r ==> pairwise_ok(final(state)@),
        r ==> forall|i: int|
            old(state)@.len() <= i < final(state)@.len() ==> valid_choice(
                #[trigger] final(state)@[i],
            ),
        r ==> forall|c: Constraint|
            #[trigger] old(constraints)@.dom().contains(c) ==> exists|i: int|
                old(state)@.len() <= i < final(state)@.len() && touches(final(state)@[i], c),
        r ==> exact_cover(
            committed_from(final(state)@, old(state)@.len() as int),
            old(constraints)@,
        ),
        (exists|es: Set<SquareChoice>| exact_cover(es, old(constraints)@)) ==> r,
    decreases constraints.n_open(),
{
    let ghost s0 = state@;
    let ghost v0 = constraints@;
    let ghost n0 = constraints.n_open();
    if constraints.is_empty() {
        proof {
            reveal(exact_cover);
            assert(committed_from(state@, s0.len() as int) =~= Set::<SquareChoice>::empty());
            assert(exact_cover(committed_from(state@, s0.len() as int), v0));
        }
        return true;
    }
    let header = most_constrained(constraints);
    let removals = cover(header, constraints);
    let ghost v1 = constraints@;
    let mut ri: usize = 0;
    while ri < removals.len()
        invariant
            constraints.wf(),
            search_inv(s0, v0),
            valid_constraint(header),
            v0.dom().contains(header),
            v1 == cover_result(v0, header),
            record_for(v0, header, removals@),
            forall|i: int|
                0 <= i < removals@.len() ==> valid_choice((#[trigger] removals@[i]).choice)
                    && touches(removals@[i].choice, header),
            forall|i: int, c: Constraint|
                0 <= i < removals@.len() && (#[trigger] removals@[i].headers@.contains(c))
                    ==> valid_constraint(c) && touches(removals@[i].choice, c),
            state@ == s0,
            constraints@ == v1,
            constraints.n_open() + 1 == n0,
            n0 == old(constraints).n_open(),
            s0 == old(state)@,
            v0 == old(constraints)@,
            ri <= removals@.len(),
            forall|es: Set<SquareChoice>, t: int|
                #![trigger exact_cover(es, v0), removals@[t]]
                exact_cover(es, v0) && 0 <= t < ri ==> !es.contains(removals@[t].choice),
        decreases removals@.len() - ri,
    {
        let choice = removals[ri].choice;
        proof {
            assert(rec_choices(removals@)[ri as int] == choice);
            assert(rec_choices(removals@).contains(choice));
            assert(v0[header].contains(choice));
        }
        state.push(choice);
        proof {
            assert(state@ == s0.push(choice));
            // The new entry shares no constraint with the old state.
            assert forall|i: int| 0 <= i < s0.len() implies !shares_constraint(
                choice,
                s0[i],
            ) by {
                assert(v0[header].contains(choice) && s0[i] == s0[i]);
            }
            assert forall|i: int, j: int|
                0 <= i < state@.len() && 0 <= j < state@.len() && i != j implies !shares_constraint(
                state@[i],
                state@[j],
            ) by {
                if i < s0.len() && j < s0.len() {
                    assert(s0[i] == state@[i] && s0[j] == state@[j]);
                } else if i < s0.len() {
                    assert(!shares_constraint(choice, s0[i]));
                    if shares_constraint(state@[i], state@[j]) {
                        let c2 = choose|c2: Constraint|
                            touches(state@[i], c2) && touches(state@[j], c2);
                        assert(shares_constraint(choice, s0[i]));
                    }
                } else {
                    assert(!shares_constraint(choice, s0[j]));
                    if shares_constraint(state@[i], state@[j]) {
                        let c2 = choose|c2: Constraint|
                            touches(state@[i], c2) && touches(state@[j], c2);
                        assert(shares_constraint(choice, s0[j]));
                    }
                }
            }
            assert(pairwise_ok(state@));
        }
        // Cover every other open constraint this choice satisfies, keeping
        // one snapshot of the matrix before each nested cover.
        let mut row_removals: Vec<(Constraint, Vec<Row>)> = Vec::new();
        let ghost mut snaps: Seq<Map<Constraint, Set<SquareChoice>>> = seq![v1];
        let hlen = removals[ri].headers.len();
        let ghost hs = removals@[ri as int].headers@;
        proof {
            assert(touches(choice, header));
            assert(kept_compatible(v0, constraints@, choice)) by {
                reveal(kept_compatible);
                assert forall|c: Constraint, ch: SquareChoice|
                    constraints@.dom().contains(c) && #[trigger] v0[c].contains(ch)
                        && !shares_constraint(ch, choice) implies constraints@[c].contains(ch) by {
                    if v0[header].contains(ch) {
                        assert(touches(ch, header));
                        assert(shares_constraint(ch, choice));
                    }
                }
            }
        }
        let mut j: usize = 0;
        while j < hlen
            invariant
                constraints.wf(),
                search_inv(s0, v0),
                valid_constraint(header),
                v0.dom().contains(header),
                v1 == cover_result(v0, header),
                ri < removals@.len(),
                choice == removals@[ri as int].choice,
                v0[header].contains(choice),
                hs == removals@[ri as int].headers@,
                hlen == hs.len(),
                forall|c: Constraint|
                    #[trigger] hs.contains(c) ==> valid_constraint(c) && touches(choice, c),
                j <= hlen,
                snaps.len() == row_removals@.len() + 1,
                snaps[0] == v1,
                snaps.last() == constraints@,
                forall|u: int|
                    0 <= u < row_removals@.len() ==> record_for(
                        snaps[u],
                        (#[trigger] row_removals@[u]).0,
                        row_removals@[u].1@,
                    ) && valid_constraint(row_removals@[u].0) && snaps[u].dom().contains(
                        row_removals@[u].0,
                    ) && map_wf(snaps[u]) && snaps[u + 1] == cover_result(
                        snaps[u],
                        row_removals@[u].0,
                    ),
                active_closed(constraints@),
                map_wf(constraints@),
                // Only already-recorded headers have been closed since `v1`.
                forall|c: Constraint|
                    #[trigger] v1.dom().contains(c) && !hs.take(j as int).contains(c)
                        ==> constraints@.dom().contains(c),
                forall|c: Constraint|
                    #[trigger] constraints@.dom().contains(c) ==> v1.dom().contains(c)
                        && constraints@[c].subset_of(v1[c]),
                forall|t: int| 0 <= t < j ==> !constraints@.dom().contains(#[trigger] hs[t]),
                kept_compatible(v0, constraints@, choice),
                constraints.n_open() + 1 + row_removals@.len() == n0,
                state@ == s0.push(choice),
                pairwise_ok(state@),
            decreases hlen - j,
        {
            let h = removals[ri].headers[j];
            proof {
                assert(hs[j as int] == h);
                assert(hs.contains(h));
            }
            let ghost w = constraints@;
            if constraints.contains_col(h) {
                let rec = cover(h, constraints);
                row_removals.push((h, rec));
                proof {
                    snaps = snaps.push(constraints@);
                    lemma_active_closed_cover(w, h);
                    lemma_map_wf_cover(w, h);
                    assert(row_removals@.drop_last()
                        == row_removals@.subrange(0, row_removals@.len() - 1));
                    assert forall|u: int| 0 <= u < row_removals@.len() implies record_for(
                        snaps[u],
                        (#[trigger] row_removals@[u]).0,
                        row_removals@[u].1@,
                    ) && valid_constraint(row_removals@[u].0) && snaps[u].dom().contains(
                        row_removals@[u].0,
                    ) && map_wf(snaps[u]) && snaps[u + 1] == cover_result(
                        snaps[u],
                        row_removals@[u].0,
                    ) by {
                        if u < row_removals@.len() - 1 {
                            assert(row_removals@[u] == row_removals@.drop_last()[u]);
                        } else {
                            assert(row_removals@[u].0 == h);
                        }
                    }
                    assert(kept_compatible(v0, constraints@, choice)) by {
                        reveal(kept_compatible);
                        assert forall|c: Constraint, ch: SquareChoice|
                            constraints@.dom().contains(c) && #[trigger] v0[c].contains(ch)
                                && !shares_constraint(ch, choice) implies constraints@[c].contains(
                            ch,
                        ) by {
                            assert(w.dom().contains(c) && c != h);
                            assert(v0[c].contains(ch) && !shares_constraint(ch, choice));
                            assert(w[c].contains(ch));
                            if w[h].contains(ch) {
                                assert(v1[h].contains(ch));
                                assert(v0[h].contains(ch));
                                assert(touches(ch, h));
                                assert(touches(choice, h));
                                assert(shares_constraint(ch, choice));
                            }
                            assert(constraints@[c] == w[c].difference(w[h]));
                        }
                    }
                }
            }
            j = j + 1;
            proof {
                assert(hs.take(j as int) == hs.take(j - 1).push(hs[j - 1]));
                assert forall|c: Constraint|
                    #[trigger] v1.dom().contains(c) && !hs.take(j as int).contains(
                    c,
                ) implies constraints@.dom().contains(c) by {
                    if hs.take(j - 1).contains(c) {
                        let u = choose|u: int|
                            0 <= u < j - 1 && (#[trigger] hs.take(j - 1)[u]) == c;
                        assert(hs.take(j as int)[u] == c);
                        assert(false);
                    }
                    assert(c != hs[j - 1]) by {
                        if c == hs[j - 1] {
                            assert(hs.take(j as int)[j - 1] == c);
                            assert(false);
                        }
                    }
                }
                assert forall|t: int| 0 <= t < j implies !constraints@.dom().contains(
                    #[trigger] hs[t],
                ) by {
                    if t < j - 1 {
                        assert(!w.dom().contains(hs[t]));
                    }
                }
            }
        }
        let ghost vk = constraints@;
        proof {
            // Exactly the constraints this choice satisfies were closed.
            assert forall|c: Constraint|
                v0.dom().contains(c) && !touches(choice, c) implies vk.dom().contains(c) by {
                assert(c != header);
                assert(v1.dom().contains(c));
                assert(hs.take(hlen as int) == hs);
                if hs.contains(c) {
                    assert(touches(choice, c));
                }
            }
            assert forall|c: Constraint|
                touches(choice, c) implies !vk.dom().contains(c) by {
                if vk.dom().contains(c) {
                    assert(v1.dom().contains(c));
                    assert(c != header);
                    assert(v0.dom().contains(c));
                    assert(v0[c].contains(choice));
                    assert(removals@[ri as int].headers@.contains(c));
                    let t = choose|t: int| 0 <= t < hs.len() && hs[t] == c;
                    assert(hs.take(hlen as int) == hs);
                    assert(!vk.dom().contains(hs[t]));
                }
            }
            // The search invariant holds for the extended state.
            assert forall|c: Constraint, ch: SquareChoice, i: int|
                vk.dom().contains(c) && #[trigger] vk[c].contains(ch) && 0 <= i < state@.len()
                    implies !shares_constraint(ch, #[trigger] state@[i]) by {
                assert(v1.dom().contains(c) && v1[c].contains(ch));
                assert(v0.dom().contains(c) && v0[c].contains(ch));
                if i < s0.len() {
                    assert(v0[c].contains(ch) && s0[i] == s0[i]);
                    assert(!shares_constraint(ch, s0[i]));
                } else {
                    assert(state@[i] == choice);
                    if shares_constraint(ch, choice) {
                        let c2 = choose|c2: Constraint| touches(ch, c2) && touches(choice, c2);
                        assert(vk.dom().contains(c2) && vk[c2].contains(ch));
                        assert(!vk.dom().contains(c2));
                    }
                }
            }
            assert forall|c: Constraint, i: int|
                #[trigger] vk.dom().contains(c) && 0 <= i < state@.len() implies !touches(
                #[trigger] state@[i],
                c,
            ) by {
                if i < s0.len() {
                    assert(v0.dom().contains(c));
                    assert(s0[i] == state@[i]);
                } else {
                    assert(state@[i] == choice);
                }
            }
            assert(search_inv(state@, vk));
        }
        let solved = solve(state, constraints);
        if solved {
            proof {
                assert(s0.push(choice).is_prefix_of(state@));
                assert(s0.is_prefix_of(state@)) by {
                    assert forall|i: int| 0 <= i < s0.len() implies s0[i] == state@[i] by {
                        assert(s0.push(choice)[i] == s0[i]);
                    }
                }
                assert(state@[s0.len() as int] == choice) by {
                    assert(s0.push(choice)[s0.len() as int] == choice);
                }
                assert(valid_choice(choice));
                // Every constraint open at entry is satisfied by an appended
                // choice: by a deeper one if it stayed open, by this row's
                // choice if it was covered here.
                assert forall|c: Constraint| #[trigger]
                    v0.dom().contains(c) implies exists|i: int|
                    s0.len() <= i < state@.len() && touches(state@[i], c) by {
                    if c == header {
                        assert(touches(choice, header));
                        assert(s0.len() <= s0.len() < state@.len() && touches(
                            state@[s0.len() as int],
                            c,
                        ));
                    } else if vk.dom().contains(c) {
                        let i = choose|i: int|
                            s0.len() + 1 <= i < state@.len() && touches(state@[i], c);
                        assert(s0.len() <= i < state@.len() && touches(state@[i], c));
                    } else {
                        // `c` was closed between `v0` and `vk`, so this
                        // row's choice satisfies it.
                        assert(v1.dom().contains(c)) by {
                            assert(v0.dom().contains(c) && c != header);
                        }
                        assert(hs.take(hlen as int) == hs);
                        assert(hs.contains(c));
                        assert(touches(choice, c));
                        assert(s0.len() <= s0.len() < state@.len() && touches(
                            state@[s0.len() as int],
                            c,
                        ));
                    }
                }
                assert forall|i: int|
                    s0.len() <= i < state@.len() implies valid_choice(
                    #[trigger] state@[i],
                ) by {
                    if i == s0.len() {
                        assert(state@[i] == choice);
                    }
                }
                // The committed choices are an exact cover of the matrix at
                // entry: this row's choice plus the deeper cover.
                lemma_success_cover(s0, choice, state@, v0, v1, vk, header);
            }
            return true;
        }
        // The recursion failed: undo this row's covers in reverse order and
        // withdraw the choice.
        proof {
            assert(state@ == s0.push(choice));
            assert(constraints@ == vk);
            assert(snaps.last() == vk);
        }
        let mut t: usize = row_removals.len();
        while t > 0
            invariant
                constraints.wf(),
                t <= row_removals@.len(),
                snaps.len() == row_removals@.len() + 1,
                snaps[0] == v1,
                forall|u: int|
                    0 <= u < row_removals@.len() ==> record_for(
                        snaps[u],
                        (#[trigger] row_removals@[u]).0,
                        row_removals@[u].1@,
                    ) && valid_constraint(row_removals@[u].0) && snaps[u].dom().contains(
                        row_removals@[u].0,
                    ) && map_wf(snaps[u]) && snaps[u + 1] == cover_result(
                        snaps[u],
                        row_removals@[u].0,
                    ),
                constraints@ == snaps[t as int],
                constraints.n_open() + 1 + t == n0,
            decreases t,
        {
            t = t - 1;
            let h = row_removals[t].0;
            let ghost vpre = snaps[t as int];
            let ghost rseq = row_removals@[t as int].1@;
            proof {
                assert(record_for(vpre, h, rseq));
                assert(constraints@ == cover_result(vpre, h));
                assert(!constraints@.dom().contains(h));
                assert forall|i: int|
                    0 <= i < rseq.len() implies valid_choice((#[trigger] rseq[i]).choice)
                    && touches(rseq[i].choice, h) by {
                    assert(rec_choices(rseq)[i] == rseq[i].choice);
                    assert(rec_choices(rseq).contains(rseq[i].choice));
                    assert(vpre[h].contains(rseq[i].choice));
                }
                assert forall|i: int, c: Constraint|
                    0 <= i < rseq.len() && (#[trigger] rseq[i].headers@.contains(
                        c,
                    )) implies valid_constraint(c) && c != h && constraints@.dom().contains(c)
                    && touches(rseq[i].choice, c) && !constraints@[c].contains(rseq[i].choice) by {
                    assert(vpre.dom().contains(c) && c != h && vpre[c].contains(rseq[i].choice));
                    assert(rec_choices(rseq)[i] == rseq[i].choice);
                    assert(rec_choices(rseq).contains(rseq[i].choice));
                    assert(vpre[h].contains(rseq[i].choice));
                }
            }
            uncover(h, row_removals[t].1.as_slice(), constraints);
            proof {
                crate::matrix::lemma_cover_uncover_inverse(vpre, h, rseq);
                assert(constraints@ == vpre);
            }
        }
        proof {
            assert(constraints@ == v1);
        }
        state.pop();
        proof {
            assert(state@ == s0.push(choice).drop_last());
            assert(state@ == s0);
            // This row's choice belongs to no exact cover: one that used it
            // would descend to an exact cover of the matrix the failed
            // recursion saw.
            assert forall|c: Constraint|
                v0.dom().contains(c) && #[trigger] touches(choice, c) implies v0[c].contains(
                choice,
            ) by {
                assert(v0[header].contains(choice));
            }
            assert forall|c: Constraint|
                v0.dom().contains(c) && #[trigger] v0[c].contains(choice) implies touches(
                choice,
                c,
            ) by {}
            assert forall|es: Set<SquareChoice>|
                exact_cover(es, v0) implies !es.contains(choice) by {
                if es.contains(choice) {
                    let er = es.remove(choice);
                    lemma_ec_parts(es, v0);
                    lemma_descends_at_least(es, v0, vk, choice);
                    lemma_descends_support(es, v0, vk, choice);
                    assert forall|e1: SquareChoice, e2: SquareChoice|
                        #![trigger er.contains(e1), er.contains(e2)]
                        er.contains(e1) && er.contains(e2) && e1 != e2 implies !shares_constraint(
                        e1,
                        e2,
                    ) by {}
                    lemma_ec_build(er, vk);
                    assert(exists|es2: Set<SquareChoice>| exact_cover(es2, vk));
                    assert(false);
                }
            }
            assert forall|es: Set<SquareChoice>, t: int|
                #![trigger exact_cover(es, v0), removals@[t]]
                exact_cover(es, v0) && 0 <= t < ri + 1 implies !es.contains(
                removals@[t].choice,
            ) by {
                if t == ri as int {
                    assert(!es.contains(choice));
                }
            }
        }
        ri = ri + 1;
    }
    // No candidate worked: restore the header's column and report failure.
    proof {
        assert(constraints@ == cover_result(v0, header));
        assert(!constraints@.dom().contains(header));
        assert forall|i: int|
            0 <= i < removals@.len() implies valid_choice((#[trigger] removals@[i]).choice)
            && touches(removals@[i].choice, header) by {}
        assert forall|i: int, c: Constraint|
            0 <= i < removals@.len() && (#[trigger] removals@[i].headers@.contains(
                c,
            )) implies valid_constraint(c) && c != header && constraints@.dom().contains(c)
            && touches(removals@[i].choice, c) && !constraints@[c].contains(
            removals@[i].choice,
        ) by {
            assert(v0.dom().contains(c) && c != header && v0[c].contains(removals@[i].choice));
            assert(rec_choices(removals@)[i] == removals@[i].choice);
            assert(rec_choices(removals@).contains(removals@[i].choice));
            assert(v0[header].contains(removals@[i].choice));
        }
    }
    uncover(header, removals.as_slice(), constraints);
    proof {
        crate::matrix::lemma_cover_uncover_inverse(v0, header, removals@);
        assert(constraints@ == v0);
        // No exact cover exists: any cover must satisfy the selected header
        // with one of its candidates, and every candidate was refuted.
        assert forall|es: Set<SquareChoice>| !exact_cover(es, v0) by {
            if exact_cover(es, v0) {
                reveal(exact_cover);
                assert(v0.dom().contains(header));
                let e = choose|e: SquareChoice|
                    es.contains(e) && #[trigger] v0[header].contains(e);
                assert(rec_choices(removals@).to_set().contains(e));
                assert(rec_choices(removals@).contains(e));
                let t = choose|t: int|
                    0 <= t < rec_choices(removals@).len() && rec_choices(removals@)[t] == e;
                assert(removals@[t].choice == e);
                assert(!es.contains(removals@[t].choice));
                assert(false);
            }
        }
    }
    false
}

} // verus!
