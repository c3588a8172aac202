//! Properties that relate several operations of the solver.
use crate::board::{
    GroupKind, board_valid, cells_wf, empty_cells, group_of, group_valid, in_range, installed,
    known, lemma_known_same, lemma_locked_all, lemma_remove_twice, locked_all, locks_digit,
    propagated_all, propagated_group, render, same_locks, solve_result, consistent, holds_assignment,
    is_assignment, keeps_locks, lemma_member, lemma_pos, member, peer_mask, pos_in, solved,
};
use crate::search::{differs_first_at, grid_before, lemma_solved_solves, solves};
use crate::cell::{CellView, lemma_single, lemma_singleton, singleton};
use crate::parse::{col_at, givens, is_given, lemma_position_bounds, row_at, text_givens};
use vstd::prelude::*;

verus! {

/// After the known digits of a group have been struck, no open cell of
/// that group still holds as a candidate a digit locked in the group.
pub proof fn lemma_propagation_sound(x: Seq<CellView>, kind: GroupKind, g: int)
    requires
        cells_wf(x),
        0 <= g < 9,
    ensures
        forall|i: int, j: int, d: int|
            0 <= i < 81 && group_of(kind, i) == g && !propagated_group(x, kind, g)[i].locked && 0
                <= j < 9 && 0 <= d < 9 && #[trigger] locks_digit(propagated_group(x, kind, g), kind, g, j, d)
                ==> !#[trigger] propagated_group(x, kind, g)[i].cands[d],
{
    let y = propagated_group(x, kind, g);
    let k = known(x, kind, g);
    assert forall|i: int| 0 <= i < 81 implies (#[trigger] y[i]).wf() && y[i].locked == x[i].locked
        && (x[i].locked ==> y[i] == x[i]) by {
        lemma_remove_twice(x[i], k, k);
    }
    assert(same_locks(x, y));
    lemma_known_same(x, y, kind, g);
    assert forall|i: int, j: int, d: int|
        0 <= i < 81 && group_of(kind, i) == g && !y[i].locked && 0 <= j < 9 && 0 <= d < 9
            && #[trigger] locks_digit(y, kind, g, j, d) implies !#[trigger] y[i].cands[d] by {
        assert(known(y, kind, g)[d]);
    }
}

/// Running the propagation loop a second time, right after a first run,
/// changes nothing; and the state it stops in is stable under one more
/// elimination pass and one more locking pass.
pub proof fn lemma_solve_twice(x: Seq<CellView>, y: Seq<CellView>, z: Seq<CellView>)
    requires
        cells_wf(x),
        solve_result(x, y),
        solve_result(y, z),
    ensures
        z == y,
        propagated_all(y) == y,
        locked_all(y) == y,
{
    lemma_locked_all(y);
}

/// Each digit of a text lies before any later one in reading order.
proof fn lemma_reading_order(b: Seq<char>, k1: int, k2: int)
    requires
        0 <= k1 < k2 <= b.len(),
    ensures
        row_at(b, k1) < row_at(b, k2) || (row_at(b, k1) == row_at(b, k2) && col_at(b, k1) < col_at(
            b,
            k2,
        )),
    decreases k2,
{
    if k2 > k1 + 1 {
        lemma_reading_order(b, k1, k2 - 1);
    }
}

/// Every digit of `b` lies within nine lines of nine places.
pub open spec fn within_frame(b: Seq<char>) -> bool {
    forall|k: int|
        0 <= k < b.len() && is_given(#[trigger] b[k]) ==> row_at(b, k) < 9 && col_at(b, k) < 9
}

proof fn lemma_givens_in_range(b: Seq<char>, n: int)
    requires
        0 <= n <= b.len(),
        within_frame(b),
    ensures
        forall|m: int| 0 <= m < givens(b, n).len() ==> #[trigger] in_range(givens(b, n)[m]),
    decreases n,
{
    if n > 0 {
        lemma_givens_in_range(b, n - 1);
        lemma_position_bounds(b, n - 1);
        let s = givens(b, n - 1);
        if is_given(b[n - 1]) {
            assert(row_at(b, n - 1) < 9 && col_at(b, n - 1) < 9);
            assert forall|m: int| 0 <= m < givens(b, n).len() implies #[trigger] in_range(
                givens(b, n)[m],
            ) by {
                if m < s.len() {
                    assert(givens(b, n)[m] == s[m]);
                }
            }
        }
    }
}

proof fn lemma_installed_len(x: Seq<CellView>, vals: Seq<(usize, usize, u8)>)
    requires
        x.len() == 81,
        forall|m: int| 0 <= m < vals.len() ==> #[trigger] in_range(vals[m]),
    ensures
        installed(x, vals).len() == 81,
    decreases vals.len(),
{
    if vals.len() > 0 {
        assert forall|m: int| 0 <= m < vals.drop_last().len() implies #[trigger] in_range(
            vals.drop_last()[m],
        ) by {
            assert(vals.drop_last()[m] == vals[m]);
        }
        lemma_installed_len(x, vals.drop_last());
        assert(in_range(vals[vals.len() - 1]));
    }
}

/// After the givens of the first `n` bytes are installed, the cell of the
/// digit at byte `k` holds that digit alone.
proof fn lemma_given_cell(b: Seq<char>, n: int, k: int)
    requires
        0 <= k < n <= b.len(),
        is_given(b[k]),
        within_frame(b),
    ensures
        installed(empty_cells(), givens(b, n))[9 * row_at(b, k) + col_at(b, k)] == (CellView {
            cands: singleton(b[k] as u32 - 48),
            locked: false,
        }),
    decreases n,
{
    lemma_givens_in_range(b, n - 1);
    lemma_installed_len(empty_cells(), givens(b, n - 1));
    lemma_position_bounds(b, k);
    lemma_position_bounds(b, n - 1);
    assert(row_at(b, k) < 9 && col_at(b, k) < 9);
    let p = 9 * row_at(b, k) + col_at(b, k);
    let s = givens(b, n - 1);
    if is_given(b[n - 1]) {
        let t = (row_at(b, n - 1) as usize, col_at(b, n - 1) as usize, (b[n - 1] as u32 - 48) as u8);
        assert(givens(b, n) == s.push(t));
        assert(givens(b, n).drop_last() =~= s);
        assert(givens(b, n).last() == t);
        assert(row_at(b, n - 1) < 9 && col_at(b, n - 1) < 9);
        assert(installed(empty_cells(), givens(b, n)) == installed(empty_cells(), s).update(
            9 * t.0 + t.1,
            CellView { cands: singleton(t.2 as int), locked: false },
        ));
        if n - 1 > k {
            lemma_given_cell(b, n - 1, k);
            lemma_reading_order(b, k, n - 1);
            assert(9 * row_at(b, n - 1) + col_at(b, n - 1) != p);
        }
    } else {
        assert(givens(b, n) == s);
        lemma_given_cell(b, n - 1, k);
    }
}

/// A place that no digit of the first `n` characters names keeps its
/// fresh cell.
proof fn lemma_untouched(b: Seq<char>, n: int, p: int)
    requires
        0 <= n <= b.len(),
        0 <= p < 81,
        within_frame(b),
        forall|k: int| 0 <= k < n && is_given(#[trigger] b[k]) ==> 9 * row_at(b, k) + col_at(b, k) != p,
    ensures
        installed(empty_cells(), givens(b, n))[p] == empty_cells()[p],
    decreases n,
{
    if n > 0 {
        lemma_givens_in_range(b, n - 1);
        lemma_installed_len(empty_cells(), givens(b, n - 1));
        lemma_untouched(b, n - 1, p);
        let s = givens(b, n - 1);
        if is_given(b[n - 1]) {
            let t = (row_at(b, n - 1) as usize, col_at(b, n - 1) as usize, (b[n - 1] as u32 - 48) as u8);
            lemma_position_bounds(b, n - 1);
            assert(givens(b, n) == s.push(t));
            assert(givens(b, n).drop_last() =~= s);
            assert(givens(b, n).last() == t);
        } else {
            assert(givens(b, n) == s);
        }
    }
}

/// Reading a board from text and showing it again gives back the text's
/// pattern: each character at line `r`, place `c` within the nine lines of
/// nine places comes back at line `r`, place `c` of the rendering, as the
/// same digit where it is a digit `1`-`9` and as `.` otherwise. Reading
/// succeeds when every digit lies within nine lines of nine places.
pub proof fn lemma_render_round_trip(s: Seq<char>, k: int)
    requires
        within_frame(s),
        0 <= k < s.len(),
        s[k] != '\n',
        row_at(s, k) < 9,
        col_at(s, k) < 9,
    ensures
        forall|m: int| 0 <= m < text_givens(s).len() ==> #[trigger] in_range(text_givens(s)[m]),
        render(locked_all(installed(empty_cells(), text_givens(s))))[10 * row_at(s, k) + col_at(
            s,
            k,
        )] == if is_given(s[k]) {
            s[k]
        } else {
            '.'
        },
{
    let n = s.len() as int;
    lemma_givens_in_range(s, n);
    lemma_installed_len(empty_cells(), givens(s, n));
    lemma_position_bounds(s, k);
    let r = row_at(s, k);
    let c = col_at(s, k);
    let y = installed(empty_cells(), text_givens(s));
    let x = locked_all(y);
    if is_given(s[k]) {
        lemma_given_cell(s, n, k);
        let v = s[k] as u32 - 48;
        lemma_singleton(v);
        lemma_single(singleton(v));
        assert(y[9 * r + c] == CellView { cands: singleton(v), locked: false });
        assert(y[9 * r + c].lockable());
        assert(x[9 * r + c].locked);
        assert(x[9 * r + c].value() == v);
    } else {
        assert forall|k2: int| 0 <= k2 < n && is_given(#[trigger] s[k2]) implies 9 * row_at(s, k2)
            + col_at(s, k2) != 9 * r + c by {
            assert(row_at(s, k2) < 9 && col_at(s, k2) < 9);
            lemma_position_bounds(s, k2);
            if k2 < k {
                lemma_reading_order(s, k2, k);
            } else {
                lemma_reading_order(s, k, k2);
            }
        }
        lemma_untouched(s, n, 9 * r + c);
        let all = Seq::new(9, |d: int| true);
        reveal_with_fuel(crate::cell::digits_upto, 10);
        assert(crate::cell::candidate_digits(all).len() == 9);
        assert(y[9 * r + c] == CellView { cands: all, locked: false });
        assert(all[0]);
        assert(x[9 * r + c] == y[9 * r + c]);
    }
}

/// Two locked cells of one group that hold the same digit make the board
/// invalid.
pub proof fn lemma_conflict_invalid(
    x: Seq<CellView>,
    kind: GroupKind,
    g: int,
    j1: int,
    j2: int,
    d: int,
)
    requires
        0 <= g < 9,
        0 <= j1 < 9,
        0 <= j2 < 9,
        j1 != j2,
        0 <= d < 9,
        locks_digit(x, kind, g, j1, d),
        locks_digit(x, kind, g, j2, d),
    ensures
        !group_valid(x, kind, g),
        !board_valid(x),
{
    if board_valid(x) {
        assert(group_valid(x, GroupKind::Row, g) && group_valid(x, GroupKind::Col, g)
            && group_valid(x, GroupKind::Blk, g));
    }
}

/// A board whose cells are all locked but one, where exactly one digit is
/// locked in none of that cell's row, column and block (and that digit is
/// still a candidate there), has exactly one completion: any list of boards
/// meeting what the search promises (each solved and keeping the locks,
/// in increasing order, every open valid grid among them) holds one board,
/// which fills the open cell with that digit and leaves the rest as given.
pub proof fn lemma_one_open_cell(x0: Seq<CellView>, i: int, d: int, sols: Seq<Seq<CellView>>)
    requires
        cells_wf(x0),
        board_valid(x0),
        0 <= i < 81,
        !x0[i].locked,
        forall|c: int| 0 <= c < 81 && c != i ==> (#[trigger] x0[c]).locked,
        1 <= d <= 9,
        x0[i].cands[d - 1],
        !peer_mask(x0, i)[d - 1],
        forall|w: int| 1 <= w <= 9 && w != d ==> #[trigger] peer_mask(x0, i)[w - 1],
        forall|m: int|
            0 <= m < sols.len() ==> cells_wf(#[trigger] sols[m]) && solved(sols[m]) && keeps_locks(
                x0,
                sols[m],
            ),
        forall|m1: int, m2: int|
            0 <= m1 < m2 < sols.len() ==> grid_before(#[trigger] sols[m1], #[trigger] sols[m2]),
        forall|a: Seq<int>|
            is_assignment(a) && #[trigger] consistent(a, x0) ==> exists|m: int|
                0 <= m < sols.len() && holds_assignment(#[trigger] sols[m], a),
    ensures
        sols.len() == 1,
        sols[0][i].locked,
        sols[0][i].value() == d,
        forall|c: int| 0 <= c < 81 && c != i ==> #[trigger] sols[0][c] == x0[c],
{
    // every board of the list fills the open cell with `d`
    assert forall|m: int| 0 <= m < sols.len() implies (#[trigger] sols[m])[i].value() == d by {
        let z = sols[m];
        lemma_single(z[i].cands);
        let w = z[i].value() as int;
        if w != d {
            assert(peer_mask(x0, i)[w - 1]);
            let kind = if known(x0, GroupKind::Row, group_of(GroupKind::Row, i))[w - 1] {
                GroupKind::Row
            } else if known(x0, GroupKind::Col, group_of(GroupKind::Col, i))[w - 1] {
                GroupKind::Col
            } else {
                GroupKind::Blk
            };
            let g = group_of(kind, i);
            lemma_pos(kind, i);
            assert(known(x0, kind, g)[w - 1]);
            let j = choose|j: int| 0 <= j < 9 && #[trigger] locks_digit(x0, kind, g, j, w - 1);
            lemma_member(kind, g, j);
            let mm = member(kind, g, j);
            assert(z[mm] == x0[mm]);
            assert(mm != i);
            assert(j != pos_in(kind, i));
            assert(locks_digit(z, kind, g, j, w - 1));
            assert(locks_digit(z, kind, g, pos_in(kind, i), w - 1));
            assert(group_valid(z, GroupKind::Row, g) && group_valid(z, GroupKind::Col, g)
                && group_valid(z, GroupKind::Blk, g));
            assert(!group_valid(z, kind, g));
        }
    }
    // the completed grid obeys the rule and is open on the board
    let a = Seq::new(81, |c: int| if c == i { d } else { x0[c].value() as int });
    assert forall|c: int| 0 <= c < 81 implies 1 <= #[trigger] a[c] <= 9 && x0[c].cands[a[c] - 1] by {
        if c != i {
            lemma_single(x0[c].cands);
        }
    }
    assert forall|kind: GroupKind, g: int, j1: int, j2: int|
        0 <= g < 9 && 0 <= j1 < 9 && 0 <= j2 < 9 && j1 != j2 implies #[trigger] a[member(kind, g, j1)]
        != #[trigger] a[member(kind, g, j2)] by {
        lemma_member(kind, g, j1);
        lemma_member(kind, g, j2);
        let m1 = member(kind, g, j1);
        let m2 = member(kind, g, j2);
        lemma_pos(kind, i);
        if a[m1] == a[m2] {
            if m1 != i && m2 != i {
                lemma_single(x0[m1].cands);
                lemma_single(x0[m2].cands);
                let e = a[m1] - 1;
                assert(locks_digit(x0, kind, g, j1, e) && locks_digit(x0, kind, g, j2, e));
                assert(group_valid(x0, GroupKind::Row, g) && group_valid(x0, GroupKind::Col, g)
                    && group_valid(x0, GroupKind::Blk, g));
                assert(group_valid(x0, kind, g));
            } else {
                let (jo, mo) = if m1 == i { (j2, m2) } else { (j1, m1) };
                lemma_single(x0[mo].cands);
                assert(locks_digit(x0, kind, g, jo, d - 1));
                assert(group_of(kind, i) == g);
                assert(known(x0, kind, g)[d - 1]);
                assert(peer_mask(x0, i)[d - 1]);
            }
        }
    }
    assert(is_assignment(a));
    assert(consistent(a, x0));
    let m = choose|m: int| 0 <= m < sols.len() && holds_assignment(#[trigger] sols[m], a);
    // no two boards of the list differ anywhere
    if sols.len() > 1 {
        let z1 = sols[0];
        let z2 = sols[1];
        assert(grid_before(z1, z2));
        let p = choose|p: int| 0 <= p < 81 && #[trigger] differs_first_at(z1, z2, p);
        if p != i {
            assert(z1[p] == x0[p] && z2[p] == x0[p]);
        }
        assert(z1[i].value() == d && z2[i].value() == d);
    }
    assert(sols[0][i].value() == d);
}

/// A fully locked board on which a grid is open equals any board locked to
/// that grid.
proof fn lemma_locked_to_same_grid(x: Seq<CellView>, z: Seq<CellView>, a: Seq<int>)
    requires
        cells_wf(x),
        cells_wf(z),
        is_assignment(a),
        solved(x),
        consistent(a, x),
        holds_assignment(z, a),
    ensures
        z == x,
{
    assert forall|c: int| 0 <= c < 81 implies #[trigger] z[c] == x[c] by {
        assert(x[c].locked);
        assert(z[c].locked);
        lemma_single(x[c].cands);
        lemma_single(z[c].cands);
        assert(x[c].cands[a[c] - 1]);
        assert(z[c].cands =~= x[c].cands);
    }
    assert(z =~= x);
}

/// When the propagation loop alone solves a board, the search finds that
/// board and nothing else: any list of boards meeting what the search
/// promises (each locked to a valid grid open on the board given, in
/// increasing order, every open valid grid among them) holds exactly the
/// board the loop reached.
pub proof fn lemma_solved_by_propagation(x0: Seq<CellView>, x: Seq<CellView>, sols: Seq<Seq<CellView>>)
    requires
        cells_wf(x0),
        solve_result(x0, x),
        solved(x),
        forall|m: int| 0 <= m < sols.len() ==> cells_wf(#[trigger] sols[m]) && solves(x0, sols[m]),
        forall|m1: int, m2: int|
            0 <= m1 < m2 < sols.len() ==> grid_before(#[trigger] sols[m1], #[trigger] sols[m2]),
        forall|a: Seq<int>|
            is_assignment(a) && #[trigger] consistent(a, x0) ==> exists|m: int|
                0 <= m < sols.len() && holds_assignment(#[trigger] sols[m], a),
    ensures
        sols.len() == 1,
        sols[0] == x,
{
    lemma_solved_solves(x0, x);
    let a0 = choose|a: Seq<int>| is_assignment(a) && consistent(a, x0) && #[trigger] holds_assignment(x, a);
    let m0 = choose|m: int| 0 <= m < sols.len() && holds_assignment(#[trigger] sols[m], a0);
    assert forall|m: int| 0 <= m < sols.len() implies #[trigger] sols[m] == x by {
        let z = sols[m];
        assert(solves(x0, z));
        let a = choose|a: Seq<int>| is_assignment(a) && consistent(a, x0) && #[trigger] holds_assignment(z, a);
        assert(consistent(a, x));
        lemma_locked_to_same_grid(x, z, a);
    }
    if sols.len() > 1 {
        assert(grid_before(sols[0], sols[1]));
        let p = choose|p: int| 0 <= p < 81 && #[trigger] differs_first_at(sols[0], sols[1], p);
    }
}

} // verus!
