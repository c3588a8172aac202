//! Exhaustive backtracking search over boards, branching on the first open
//! cell after propagation has reached its fixpoint.
use crate::board::{
    GroupKind, SudokuBoard, all_locked, board_valid, cells_wf, consistent, group_valid,
    has_contradiction, holds_assignment, in_range, installed, is_assignment, keeps_locks,
    lemma_locked_all, lemma_locked_consistent, lemma_locked_count, lemma_member, locked_all,
    locked_count, locks_digit, member, shrinks, solve_result, solved,
};
use crate::cell::{
    CellView, candidate_digits, lemma_digits_upto, lemma_single, lemma_singleton, singleton,
};
use vstd::prelude::*;

verus! {

/// A conflict between two locked cells survives on any board that keeps
/// those locks.
pub proof fn lemma_invalid_kept(x: Seq<CellView>, y: Seq<CellView>)
    requires
        x.len() == 81,
        keeps_locks(x, y),
        !board_valid(x),
    ensures
        !board_valid(y),
{
    let g = choose|g: int|
        0 <= g < 9 && !(#[trigger] group_valid(x, GroupKind::Row, g) && group_valid(
            x,
            GroupKind::Col,
            g,
        ) && group_valid(x, GroupKind::Blk, g));
    let kind = if !group_valid(x, GroupKind::Row, g) {
        GroupKind::Row
    } else if !group_valid(x, GroupKind::Col, g) {
        GroupKind::Col
    } else {
        GroupKind::Blk
    };
    let (j1, j2, d) = choose|j1: int, j2: int, d: int|
        0 <= j1 < 9 && 0 <= j2 < 9 && j1 != j2 && 0 <= d < 9 && #[trigger] locks_digit(
            x,
            kind,
            g,
            j1,
            d,
        ) && #[trigger] locks_digit(x, kind, g, j2, d);
    lemma_member(kind, g, j1);
    lemma_member(kind, g, j2);
    assert(locks_digit(y, kind, g, j1, d));
    assert(locks_digit(y, kind, g, j2, d));
    assert(!group_valid(y, kind, g));
    assert(0 <= g < 9);
    if board_valid(y) {
        assert(group_valid(y, GroupKind::Row, g) && group_valid(y, GroupKind::Col, g) && group_valid(
            y,
            GroupKind::Blk,
            g,
        ));
    }
}

/// A board on which a grid that obeys the rule is still open has no
/// contradictory cell and no conflict.
pub proof fn lemma_open_grid_alive(x: Seq<CellView>, a: Seq<int>)
    requires
        cells_wf(x),
        is_assignment(a),
        consistent(a, x),
    ensures
        !has_contradiction(x),
        board_valid(x),
{
    if has_contradiction(x) {
        let i = choose|i: int| 0 <= i < 81 && (#[trigger] x[i]).contradictory();
        assert(x[i].cands[a[i] - 1]);
    }
    assert forall|g: int| 0 <= g < 9 implies #[trigger] group_valid(x, GroupKind::Row, g)
        && group_valid(x, GroupKind::Col, g) && group_valid(x, GroupKind::Blk, g) by {
        assert forall|kind: GroupKind| group_valid(x, kind, g) by {
            assert forall|j1: int, j2: int, d: int|
                0 <= j1 < 9 && 0 <= j2 < 9 && j1 != j2 && 0 <= d < 9 implies !(
                #[trigger] locks_digit(x, kind, g, j1, d) && #[trigger] locks_digit(
                    x,
                    kind,
                    g,
                    j2,
                    d,
                )) by {
                if locks_digit(x, kind, g, j1, d) && locks_digit(x, kind, g, j2, d) {
                    lemma_member(kind, g, j1);
                    lemma_member(kind, g, j2);
                    lemma_locked_consistent(x, a, member(kind, g, j1));
                    lemma_locked_consistent(x, a, member(kind, g, j2));
                    assert(a[member(kind, g, j1)] != a[member(kind, g, j2)]);
                }
            }
        }
    }
}

/// Board `y` is locked to a full grid that obeys the rule and is still
/// open on board `x`.
pub open spec fn solves(x: Seq<CellView>, y: Seq<CellView>) -> bool {
    exists|a: Seq<int>| is_assignment(a) && consistent(a, x) && #[trigger] holds_assignment(y, a)
}

/// Boards `x` and `y` show the same digits before cell `p` (row-major),
/// and `x` shows a smaller digit at `p`.
pub open spec fn differs_first_at(x: Seq<CellView>, y: Seq<CellView>, p: int) -> bool {
    &&& forall|q: int| 0 <= q < p ==> #[trigger] x[q].value() == y[q].value()
    &&& x[p].value() < y[p].value()
}

/// The digits of `x`, read row-major, come before those of `y` in
/// dictionary order.
pub open spec fn grid_before(x: Seq<CellView>, y: Seq<CellView>) -> bool {
    exists|p: int| 0 <= p < 81 && #[trigger] differs_first_at(x, y, p)
}

/// A solved board is locked to a grid that obeys the rule, and that grid
/// is open on any board whose candidates include the solved board's.
pub proof fn lemma_solved_solves(x0: Seq<CellView>, x: Seq<CellView>)
    requires
        cells_wf(x),
        solved(x),
        shrinks(x0, x),
    ensures
        solves(x0, x),
{
    let a = Seq::new(81, |i: int| x[i].value() as int);
    assert forall|i: int| 0 <= i < 81 implies 1 <= #[trigger] a[i] <= 9 && x[i].cands[a[i] - 1] by {
        lemma_single(x[i].cands);
    }
    assert forall|kind: GroupKind, g: int, j1: int, j2: int|
        0 <= g < 9 && 0 <= j1 < 9 && 0 <= j2 < 9 && j1 != j2 implies #[trigger] a[member(kind, g, j1)]
        != #[trigger] a[member(kind, g, j2)] by {
        lemma_member(kind, g, j1);
        lemma_member(kind, g, j2);
        let m1 = member(kind, g, j1);
        let m2 = member(kind, g, j2);
        if a[m1] == a[m2] {
            lemma_single(x[m1].cands);
            lemma_single(x[m2].cands);
            let d = a[m1] - 1;
            assert(locks_digit(x, kind, g, j1, d) && locks_digit(x, kind, g, j2, d));
            assert(group_valid(x, GroupKind::Row, g) && group_valid(x, GroupKind::Col, g)
                && group_valid(x, GroupKind::Blk, g));
            assert(group_valid(x, kind, g));
        }
    }
    assert(is_assignment(a));
    assert(consistent(a, x0));
    assert(holds_assignment(x, a));
}

/// Propagates `sud_board` to its fixpoint, then, if it is solved, appends
/// a copy of it to `solution_vec`; if it is neither solved nor dead, tries
/// each candidate of its first open cell, in ascending order, on a copy.
/// `sud_board` is left as one run of the propagation loop leaves it. Every
/// board appended is solved, keeps every cell that was locked in the board
/// given, and is locked to a grid that obeys the rule and is still open on
/// the board given; the boards appended come in increasing dictionary order
/// of their digits (row-major), so no two are the same; and every such grid
/// is among them. Boards already in `solution_vec` stay in place, and
/// nothing is appended for a board whose locked cells already conflict.
pub fn backtace_solver(sud_board: &mut SudokuBoard, solution_vec: &mut Vec<SudokuBoard>)
    requires
        old(sud_board).wf(),
    ensures
        final(sud_board).wf(),
        solve_result(old(sud_board)@, final(sud_board)@),
        keeps_locks(old(sud_board)@, final(sud_board)@),
        final(solution_vec)@.len() >= old(solution_vec)@.len(),
        forall|k: int| 0 <= k < old(solution_vec)@.len() ==>
            #[trigger] final(solution_vec)@[k] == old(solution_vec)@[k],
        forall|k: int| old(solution_vec)@.len() <= k < final(solution_vec)@.len() ==>
            (#[trigger] final(solution_vec)@[k]).wf()
            && solved(final(solution_vec)@[k]@)
            && keeps_locks(old(sud_board)@, final(solution_vec)@[k]@)
            && solves(old(sud_board)@, final(solution_vec)@[k]@),
        forall|m1: int, m2: int| old(solution_vec)@.len() <= m1 < m2 < final(solution_vec)@.len() ==>
            grid_before(#[trigger] final(solution_vec)@[m1]@, #[trigger] final(solution_vec)@[m2]@),
        !board_valid(old(sud_board)@) ==> final(solution_vec)@ == old(solution_vec)@,
        forall|m1: int, m2: int| old(solution_vec)@.len() <= m1 < m2 < final(solution_vec)@.len() ==>
            #[trigger] final(solution_vec)@[m1]@ != #[trigger] final(solution_vec)@[m2]@,
        forall|a: Seq<int>| is_assignment(a) && #[trigger] consistent(a, old(sud_board)@) ==>
            exists|m: int| old(solution_vec)@.len() <= m < final(solution_vec)@.len()
                && holds_assignment(#[trigger] final(solution_vec)@[m]@, a),
    decreases 81 - locked_count(old(sud_board)@, 81),
{
    let ghost x0 = sud_board@;
    let ghost s0 = solution_vec@;
    proof {
        sud_board.lemma_wf();
        lemma_locked_count(x0, x0, 81);
    }
    sud_board.solve_board();
    let ghost x = sud_board@;
    proof {
        sud_board.lemma_wf();
        lemma_locked_count(x0, x, 81);
        if !board_valid(x0) {
            lemma_invalid_kept(x0, x);
        }
    }
    if sud_board.is_solved() {
        let copy = sud_board.duplicate();
        solution_vec.push(copy);
        proof {
            assert forall|a: Seq<int>| is_assignment(a) && #[trigger] consistent(a, x0) implies exists|
                m: int,
            | s0.len() <= m < solution_vec@.len() && holds_assignment(
                #[trigger] solution_vec@[m]@,
                a,
            ) by {
                assert(consistent(a, x));
                assert forall|c: int| 0 <= c < 81 implies (#[trigger] x[c]).locked && x[c].value()
                    == a[c] by {
                    lemma_locked_consistent(x, a, c);
                }
                assert(solution_vec@[s0.len() as int]@ == x);
            }
            lemma_solved_solves(x0, x);
            assert(solution_vec@[s0.len() as int]@ == x);
        }
        return;
    }
    if sud_board.has_impossible_cells() || !sud_board.is_valid() {
        proof {
            assert forall|a: Seq<int>| is_assignment(a) && #[trigger] consistent(a, x0) implies false by {
                lemma_open_grid_alive(x, a);
            }
        }
        return;
    }
    let mut i: usize = 0;
    while i < 81
        invariant
            i <= 81,
            sud_board.wf(),
            cells_wf(x),
            sud_board@ == x,
            solution_vec@ == s0,
            board_valid(x),
            keeps_locks(x0, x),
            x0 == old(sud_board)@,
            s0 == old(solution_vec)@,
            board_valid(x0),
            locked_count(x, 81) >= locked_count(x0, 81),
            !has_contradiction(x),
            !solved(x),
            solve_result(x0, x),
            forall|c: int| 0 <= c < i ==> (#[trigger] x[c]).locked,
            forall|a: Seq<int>| is_assignment(a) && #[trigger] consistent(a, x0) ==> consistent(a, x),
        decreases 81 - i,
    {
        let rr = i / 9;
        let cc = i % 9;
        let cell = sud_board.get_cell(rr, cc);
        assert(9 * rr + cc == i);
        if !cell.is_locked() {
            let vals = cell.get_value_vec();
            proof {
                lemma_digits_upto(cell@.cands, 9);
            }
            let mut k: usize = 0;
            while k < vals.len()
                invariant
                    k <= vals@.len(),
                    vals@ == candidate_digits(x[i as int].cands),
                    forall|m: int| 0 <= m < vals@.len() ==> 1 <= #[trigger] vals@[m] <= 9,
                    forall|p: int, q: int| 0 <= p < q < vals@.len() ==> vals@[p] < vals@[q],
                    i < 81,
                    cells_wf(x),
                    rr == i / 9,
                    cc == i % 9,
                    !x[i as int].locked,
                    sud_board.wf(),
                    sud_board@ == x,
                    keeps_locks(x0, x),
                    x0 == old(sud_board)@,
                    s0 == old(solution_vec)@,
                    board_valid(x0),
                    locked_count(x, 81) >= locked_count(x0, 81),
                    forall|a: Seq<int>| is_assignment(a) && #[trigger] consistent(a, x0) ==> consistent(a, x),
                    forall|m: int|
                        s0.len() <= m < solution_vec@.len() ==> (#[trigger] solution_vec@[m])@[i as int].locked
                            && (k < vals@.len() ==> solution_vec@[m]@[i as int].value() < vals@[k as int]),
                    forall|m1: int, m2: int|
                        s0.len() <= m1 < m2 < solution_vec@.len() ==> #[trigger] solution_vec@[m1]@
                            != #[trigger] solution_vec@[m2]@,
                    forall|a: Seq<int>|
                        is_assignment(a) && #[trigger] consistent(a, x0) && (exists|q: int|
                            0 <= q < k && vals@[q] as int == a[i as int]) ==> exists|m: int|
                            s0.len() <= m < solution_vec@.len() && holds_assignment(
                                #[trigger] solution_vec@[m]@,
                                a,
                            ),
                    solution_vec@.len() >= s0.len(),
                    forall|m: int| 0 <= m < s0.len() ==> #[trigger] solution_vec@[m] == s0[m],
                    forall|m: int|
                        s0.len() <= m < solution_vec@.len() ==> (#[trigger] solution_vec@[m]).wf()
                            && solved(solution_vec@[m]@) && keeps_locks(x0, solution_vec@[m]@),
                    solve_result(x0, x),
                    forall|c: int| 0 <= c < i ==> (#[trigger] x[c]).locked,
                    forall|m: int|
                        s0.len() <= m < solution_vec@.len() ==> keeps_locks(x, (#[trigger] solution_vec@[m])@)
                            && solves(x0, solution_vec@[m]@),
                    forall|m1: int, m2: int|
                        s0.len() <= m1 < m2 < solution_vec@.len() ==> grid_before(
                            #[trigger] solution_vec@[m1]@,
                            #[trigger] solution_vec@[m2]@,
                        ),
                decreases vals@.len() - k,
            {
                let v = vals[k];
                assert(1 <= vals@[k as int] <= 9);
                let mut branch = sud_board.duplicate();
                let mut guess: Vec<(usize, usize, u8)> = Vec::new();
                guess.push((rr, cc, v));
                let ghost before = solution_vec@;
                let installed_ok = branch.set_values(guess);
                proof {
                    let t = (rr, cc, v);
                    assert(guess@ =~= seq![t]);
                    assert(guess@.drop_last() =~= Seq::<(usize, usize, u8)>::empty());
                    assert(installed(x, guess@.drop_last()) == x);
                    assert(guess@.last() == t);
                    assert(in_range(guess@[0]));
                    assert(installed_ok);
                    assert(branch@ == locked_all(installed(x, guess@)));
                    let y = installed(x, guess@);
                    assert(y == x.update(i as int, crate::cell::CellView {
                        cands: crate::cell::singleton(v as int),
                        locked: false,
                    }));
                    lemma_singleton(v as int);
                    assert(y[i as int].lockable());
                    assert(cells_wf(y));
                    lemma_locked_all(y);
                    assert(keeps_locks(x, y));
                    lemma_locked_count(x, locked_all(y), 81);
                    assert(!x[i as int].locked && locked_all(y)[i as int].locked);
                    assert(locked_count(branch@, 81) > locked_count(x0, 81));
                    assert(locked_count(branch@, 81) <= 81);
                }
                backtace_solver(&mut branch, solution_vec);
                proof {
                    let bi = locked_all(installed(x, guess@));
                    lemma_single(singleton(v as int));
                    lemma_digits_upto(x[i as int].cands, 9);
                    assert(vals@.contains(v));
                    assert(x[i as int].cands[v - 1]);
                    assert forall|c: int, d: int|
                        0 <= c < 81 && 0 <= d < 9 && #[trigger] bi[c].cands[d] implies x0[c].cands[d] by {
                        if c != i {
                            assert(x[c].cands[d]);
                        } else {
                            assert(d == v - 1);
                        }
                    }
                    assert(shrinks(x0, bi));
                    assert forall|c: int| 0 <= c < 81 && (#[trigger] x[c]).locked implies bi[c] == x[c] by {}
                    assert forall|m: int|
                        s0.len() <= m < solution_vec@.len() implies keeps_locks(x, (#[trigger] solution_vec@[m])@)
                        && solves(x0, solution_vec@[m]@) by {
                        if m < before.len() {
                            assert(solution_vec@[m] == before[m]);
                        } else {
                            let z = solution_vec@[m]@;
                            assert(solves(bi, z));
                            let a = choose|a: Seq<int>| is_assignment(a) && consistent(a, bi) && #[trigger] holds_assignment(z, a);
                            assert forall|c: int| 0 <= c < 81 implies (#[trigger] x0[c]).cands[a[c] - 1] by {
                                assert(bi[c].cands[a[c] - 1]);
                            }
                            assert(consistent(a, x0));
                            assert forall|c: int| 0 <= c < 81 && (#[trigger] x[c]).locked implies z[c] == x[c] by {
                                assert(bi[c] == x[c]);
                            }
                        }
                    }
                    assert forall|m1: int, m2: int|
                        s0.len() <= m1 < m2 < solution_vec@.len() implies grid_before(
                        #[trigger] solution_vec@[m1]@,
                        #[trigger] solution_vec@[m2]@,
                    ) by {
                        if m2 < before.len() {
                            assert(solution_vec@[m1] == before[m1]);
                            assert(solution_vec@[m2] == before[m2]);
                        } else if m1 < before.len() {
                            let z1 = solution_vec@[m1]@;
                            let z2 = solution_vec@[m2]@;
                            assert(solution_vec@[m1] == before[m1]);
                            assert(keeps_locks(x, z1));
                            assert(keeps_locks(x, z2));
                            assert forall|q: int| 0 <= q < i implies #[trigger] z1[q].value() == z2[q].value() by {
                                assert(x[q].locked);
                                assert(z1[q] == x[q]);
                                assert(z2[q] == bi[q]);
                                assert(bi[q] == x[q]);
                            }
                            assert(z1[i as int].value() < v);
                            assert(z2[i as int] == bi[i as int]);
                            assert(differs_first_at(z1, z2, i as int));
                        }
                    }
                    assert(bi[i as int].locked && bi[i as int].value() == v);
                    assert forall|m: int| before.len() <= m < solution_vec@.len() implies (
                    #[trigger] solution_vec@[m])@[i as int] == bi[i as int] by {}
                    assert forall|m: int|
                        s0.len() <= m < solution_vec@.len() implies (#[trigger] solution_vec@[m])@[
                        i as int].locked && (k + 1 < vals@.len() ==> solution_vec@[m]@[i as int].value()
                        < vals@[k + 1]) by {
                        if k + 1 < vals@.len() {
                            assert(vals@[k as int] < vals@[k + 1]);
                        }
                        if m < before.len() {
                            assert(solution_vec@[m] == before[m]);
                        }
                    }
                    assert forall|m1: int, m2: int|
                        s0.len() <= m1 < m2 < solution_vec@.len() implies #[trigger] solution_vec@[m1]@
                        != #[trigger] solution_vec@[m2]@ by {
                        if m2 < before.len() {
                            assert(solution_vec@[m1] == before[m1]);
                            assert(solution_vec@[m2] == before[m2]);
                        } else if m1 < before.len() {
                            assert(solution_vec@[m1] == before[m1]);
                            assert(solution_vec@[m1]@[i as int].value() < v);
                            assert(solution_vec@[m2]@[i as int].value() == v);
                        }
                    }
                    assert forall|a: Seq<int>|
                        is_assignment(a) && #[trigger] consistent(a, x0) && (exists|q: int|
                            0 <= q < k + 1 && vals@[q] as int == a[i as int]) implies exists|m: int|
                        s0.len() <= m < solution_vec@.len() && holds_assignment(
                            #[trigger] solution_vec@[m]@,
                            a,
                        ) by {
                        if a[i as int] == v as int {
                            assert forall|c: int| 0 <= c < 81 implies (#[trigger] bi[c]).cands[a[c] - 1] by {
                                assert(x[c].cands[a[c] - 1]);
                            }
                            assert(consistent(a, bi));
                        } else {
                            let q = choose|q: int| 0 <= q < k + 1 && vals@[q] as int == a[i as int];
                            assert(q < k);
                            let m = choose|m: int|
                                s0.len() <= m < before.len() && holds_assignment(#[trigger] before[m]@, a);
                            assert(solution_vec@[m] == before[m]);
                        }
                    }
                    assert forall|m: int|
                        s0.len() <= m < solution_vec@.len() implies (
                        #[trigger] solution_vec@[m]).wf() && solved(solution_vec@[m]@)
                        && keeps_locks(x0, solution_vec@[m]@) by {
                        if m >= before.len() {
                            let z = solution_vec@[m]@;
                            assert forall|c: int| 0 <= c < 81 && (#[trigger] x0[c]).locked implies z[c]
                                == x0[c] by {
                                assert(x[c] == x0[c]);
                            }
                        } else {
                            assert(solution_vec@[m] == before[m]);
                        }
                    }
                    assert forall|m: int| 0 <= m < s0.len() implies #[trigger] solution_vec@[m]
                        == s0[m] by {
                        assert(solution_vec@[m] == before[m]);
                    }
                }
                k += 1;
            }
            assert(solution_vec@.len() >= s0.len());
            proof {
                assert forall|a: Seq<int>| is_assignment(a) && #[trigger] consistent(a, x0) implies exists|
                    m: int,
                | s0.len() <= m < solution_vec@.len() && holds_assignment(
                    #[trigger] solution_vec@[m]@,
                    a,
                ) by {
                    assert(consistent(a, x));
                    let d = a[i as int] - 1;
                    assert(x[i as int].cands[d]);
                    assert(vals@.contains((d + 1) as u8));
                    let q = choose|q: int| 0 <= q < vals@.len() && vals@[q] == (d + 1) as u8;
                    assert(vals@[q] as int == a[i as int]);
                }
            }
            return;
        }
        i += 1;
    }
    proof {
        assert(all_locked(x));
        assert(board_valid(x));
        assert(solved(x));
    }
}

} // verus!
