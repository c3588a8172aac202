//! The 9x9 board: group queries, elimination over rows, columns and
//! blocks, and the propagation loop run to its fixpoint.
use crate::cell::{CellView, SudokuCell, lemma_single};
use crate::geometry::{block_of, block_to_board};
use vstd::prelude::*;
use vstd::string::StringExecFns;

verus! {

/// The three kinds of group in which a digit may occur only once.
#[derive(Clone, Copy, Debug, PartialEq, Eq, Structural)]
pub enum GroupKind {
    Row,
    Col,
    Blk,
}

/// The group of kind `kind` that holds cell `i` (cells numbered row-major).
pub open spec fn group_of(kind: GroupKind, i: int) -> int {
    match kind {
        GroupKind::Row => i / 9,
        GroupKind::Col => i % 9,
        GroupKind::Blk => block_of(i / 9, i % 9),
    }
}

/// The place of cell `i` within its group of kind `kind`.
pub open spec fn pos_in(kind: GroupKind, i: int) -> int {
    match kind {
        GroupKind::Row => i % 9,
        GroupKind::Col => i / 9,
        GroupKind::Blk => 3 * ((i / 9) % 3) + (i % 9) % 3,
    }
}

/// The cell at place `j` of group `g` of kind `kind`.
pub open spec fn member(kind: GroupKind, g: int, j: int) -> int {
    match kind {
        GroupKind::Row => 9 * g + j,
        GroupKind::Col => 9 * j + g,
        GroupKind::Blk => 9 * (3 * (g / 3) + j / 3) + 3 * (g % 3) + j % 3,
    }
}

pub proof fn lemma_member(kind: GroupKind, g: int, j: int)
    requires
        0 <= g < 9,
        0 <= j < 9,
    ensures
        0 <= #[trigger] member(kind, g, j) < 81,
        group_of(kind, member(kind, g, j)) == g,
        pos_in(kind, member(kind, g, j)) == j,
{
}

pub proof fn lemma_pos(kind: GroupKind, i: int)
    requires
        0 <= i < 81,
    ensures
        0 <= #[trigger] group_of(kind, i) < 9,
        0 <= pos_in(kind, i) < 9,
        member(kind, group_of(kind, i), pos_in(kind, i)) == i,
{
}

/// Cell `i` of the group is locked and holds digit `d + 1`.
pub open spec fn locks_digit(x: Seq<CellView>, kind: GroupKind, g: int, j: int, d: int) -> bool {
    x[member(kind, g, j)].locked && x[member(kind, g, j)].cands[d]
}

/// The digits locked among the first `n` cells of a group, as a mask.
pub open spec fn known_upto(x: Seq<CellView>, kind: GroupKind, g: int, n: int) -> Seq<bool> {
    Seq::new(9, |d: int| exists|j: int| 0 <= j < n && #[trigger] locks_digit(x, kind, g, j, d))
}

/// The digits locked in a group, as a mask.
pub open spec fn known(x: Seq<CellView>, kind: GroupKind, g: int) -> Seq<bool> {
    known_upto(x, kind, g, 9)
}

/// No two locked cells among the first `n` of a group hold the same digit.
pub open spec fn valid_upto(x: Seq<CellView>, kind: GroupKind, g: int, n: int) -> bool {
    forall|j1: int, j2: int, d: int|
        0 <= j1 < n && 0 <= j2 < n && j1 != j2 && 0 <= d < 9 ==> !(#[trigger] locks_digit(
            x,
            kind,
            g,
            j1,
            d,
        ) && #[trigger] locks_digit(x, kind, g, j2, d))
}

/// No two locked cells of a group hold the same digit.
pub open spec fn group_valid(x: Seq<CellView>, kind: GroupKind, g: int) -> bool {
    valid_upto(x, kind, g, 9)
}

/// Every row, column and block is valid.
pub open spec fn board_valid(x: Seq<CellView>) -> bool {
    forall|g: int|
        0 <= g < 9 ==> #[trigger] group_valid(x, GroupKind::Row, g) && group_valid(
            x,
            GroupKind::Col,
            g,
        ) && group_valid(x, GroupKind::Blk, g)
}

/// The board has 81 cells, each well formed.
pub open spec fn cells_wf(x: Seq<CellView>) -> bool {
    &&& x.len() == 81
    &&& forall|i: int| 0 <= i < 81 ==> (#[trigger] x[i]).wf()
}

/// Some cell is open with no candidate left.
pub open spec fn has_contradiction(x: Seq<CellView>) -> bool {
    exists|i: int| 0 <= i < 81 && (#[trigger] x[i]).contradictory()
}

/// Every cell is locked.
pub open spec fn all_locked(x: Seq<CellView>) -> bool {
    forall|i: int| 0 <= i < 81 ==> (#[trigger] x[i]).locked
}

/// The solved state: every cell locked, none contradictory, all groups valid.
pub open spec fn solved(x: Seq<CellView>) -> bool {
    all_locked(x) && !has_contradiction(x) && board_valid(x)
}

/// The board after the known digits of one group are struck from its cells.
pub open spec fn propagated_group(x: Seq<CellView>, kind: GroupKind, g: int) -> Seq<CellView> {
    Seq::new(
        81,
        |i: int|
            if group_of(kind, i) == g {
                x[i].after_remove(known(x, kind, g))
            } else {
                x[i]
            },
    )
}

/// The digits locked in any group that holds cell `i`.
pub open spec fn peer_mask(x: Seq<CellView>, i: int) -> Seq<bool> {
    Seq::new(
        9,
        |d: int|
            known(x, GroupKind::Row, group_of(GroupKind::Row, i))[d] || known(
                x,
                GroupKind::Col,
                group_of(GroupKind::Col, i),
            )[d] || known(x, GroupKind::Blk, group_of(GroupKind::Blk, i))[d],
    )
}

/// The board after one elimination pass over every row, column and block.
pub open spec fn propagated_all(x: Seq<CellView>) -> Seq<CellView> {
    Seq::new(81, |i: int| x[i].after_remove(peer_mask(x, i)))
}

/// The board after one attempt to lock every cell.
pub open spec fn locked_all(x: Seq<CellView>) -> Seq<CellView> {
    Seq::new(81, |i: int| x[i].after_lock())
}

/// Some cell could be locked now.
pub open spec fn any_lockable(x: Seq<CellView>) -> bool {
    exists|i: int| 0 <= i < 81 && (#[trigger] x[i]).lockable()
}

/// Neither elimination nor locking changes the board any more.
pub open spec fn is_fixpoint(x: Seq<CellView>) -> bool {
    propagated_all(x) == x && !any_lockable(x)
}

/// Every cell locked in `x` stands unchanged in `y`.
pub open spec fn keeps_locks(x: Seq<CellView>, y: Seq<CellView>) -> bool {
    forall|i: int| 0 <= i < 81 && (#[trigger] x[i]).locked ==> y[i] == x[i]
}

/// `x` and `y` lock the same cells, with the same contents.
pub open spec fn same_locks(x: Seq<CellView>, y: Seq<CellView>) -> bool {
    keeps_locks(x, y) && keeps_locks(y, x)
}

/// Number of locked cells among the first `n`.
pub open spec fn locked_count(x: Seq<CellView>, n: int) -> int
    decreases n,
{
    if n <= 0 {
        0
    } else {
        locked_count(x, n - 1) + if x[n - 1].locked {
            1int
        } else {
            0
        }
    }
}

pub proof fn lemma_known_same(x: Seq<CellView>, y: Seq<CellView>, kind: GroupKind, g: int)
    requires
        same_locks(x, y),
        0 <= g < 9,
    ensures
        known(x, kind, g) == known(y, kind, g),
{
    assert forall|j: int, d: int| 0 <= j < 9 implies locks_digit(x, kind, g, j, d) == locks_digit(
        y,
        kind,
        g,
        j,
        d,
    ) by {
        lemma_member(kind, g, j);
    }
    assert(known(x, kind, g) =~= known(y, kind, g));
}

pub proof fn lemma_locked_count(x: Seq<CellView>, y: Seq<CellView>, n: int)
    requires
        0 <= n <= 81,
        x.len() == 81,
        y.len() == 81,
        keeps_locks(x, y),
    ensures
        locked_count(y, n) >= locked_count(x, n),
        (exists|i: int| 0 <= i < n && !x[i].locked && #[trigger] y[i].locked) ==> locked_count(y, n)
            > locked_count(x, n),
        0 <= locked_count(y, n) <= n,
    decreases n,
{
    if n > 0 {
        lemma_locked_count(x, y, n - 1);
        if exists|i: int| 0 <= i < n && !x[i].locked && #[trigger] y[i].locked {
            let i = choose|i: int| 0 <= i < n && !x[i].locked && #[trigger] y[i].locked;
            if i < n - 1 {
            }
        }
    }
}

/// The mask struck from cell `i` once the rows below `rl`, the columns
/// below `cl` and the blocks below `bl` have been processed.
pub open spec fn part_mask(x: Seq<CellView>, i: int, rl: int, cl: int, bl: int) -> Seq<bool> {
    Seq::new(
        9,
        |d: int|
            (group_of(GroupKind::Row, i) < rl && known(x, GroupKind::Row, group_of(GroupKind::Row, i))[d])
                || (group_of(GroupKind::Col, i) < cl && known(
                x,
                GroupKind::Col,
                group_of(GroupKind::Col, i),
            )[d]) || (group_of(GroupKind::Blk, i) < bl && known(
                x,
                GroupKind::Blk,
                group_of(GroupKind::Blk, i),
            )[d]),
    )
}

/// The board part way through an elimination pass.
pub open spec fn partial(x: Seq<CellView>, rl: int, cl: int, bl: int) -> Seq<CellView> {
    Seq::new(81, |i: int| x[i].after_remove(part_mask(x, i, rl, cl, bl)))
}

pub proof fn lemma_remove_twice(c: CellView, m1: Seq<bool>, m2: Seq<bool>)
    requires
        c.wf(),
    ensures
        c.after_remove(m1).after_remove(m2) == c.after_remove(
            Seq::new(9, |d: int| m1[d] || m2[d]),
        ),
        c.after_remove(m1).wf(),
        c.after_remove(m1).locked == c.locked,
        c.locked ==> c.after_remove(m1) == c,
{
    if !c.locked {
        assert(c.after_remove(m1).after_remove(m2).cands =~= c.after_remove(
            Seq::new(9, |d: int| m1[d] || m2[d]),
        ).cands);
    }
}

pub proof fn lemma_partial_locks(x: Seq<CellView>, rl: int, cl: int, bl: int)
    requires
        cells_wf(x),
    ensures
        same_locks(x, partial(x, rl, cl, bl)),
        cells_wf(partial(x, rl, cl, bl)),
{
    let y = partial(x, rl, cl, bl);
    assert forall|i: int| 0 <= i < 81 implies (#[trigger] y[i]).wf() && y[i].locked == x[i].locked
        && (x[i].locked ==> y[i] == x[i]) by {
        let m = part_mask(x, i, rl, cl, bl);
        lemma_remove_twice(x[i], m, m);
    }
}

/// The next limits after processing one more group of kind `kind`.
pub open spec fn bumped(kind: GroupKind, rl: int, cl: int, bl: int) -> (int, int, int, int) {
    match kind {
        GroupKind::Row => (rl, rl + 1, cl, bl),
        GroupKind::Col => (cl, rl, cl + 1, bl),
        GroupKind::Blk => (bl, rl, cl, bl + 1),
    }
}

proof fn lemma_partial_step_at(x: Seq<CellView>, kind: GroupKind, rl: int, cl: int, bl: int, i: int)
    requires
        cells_wf(x),
        0 <= i < 81,
        known(x, kind, bumped(kind, rl, cl, bl).0) == known(
            partial(x, rl, cl, bl),
            kind,
            bumped(kind, rl, cl, bl).0,
        ),
    ensures
        propagated_group(partial(x, rl, cl, bl), kind, bumped(kind, rl, cl, bl).0)[i] == partial(
            x,
            bumped(kind, rl, cl, bl).1,
            bumped(kind, rl, cl, bl).2,
            bumped(kind, rl, cl, bl).3,
        )[i],
{
    let (g, nr, nc, nb) = bumped(kind, rl, cl, bl);
    let k = known(x, kind, g);
    let m0 = part_mask(x, i, rl, cl, bl);
    let m1 = part_mask(x, i, nr, nc, nb);
    if group_of(kind, i) == g {
        lemma_remove_twice(x[i], m0, k);
        assert(Seq::new(9, |d: int| m0[d] || k[d]) =~= m1);
    } else {
        assert(m0 =~= m1);
    }
}

/// One group step of the elimination pass.
pub proof fn lemma_partial_step(x: Seq<CellView>, kind: GroupKind, rl: int, cl: int, bl: int)
    requires
        cells_wf(x),
        0 <= rl < 9 || kind != GroupKind::Row,
        0 <= cl < 9 || kind != GroupKind::Col,
        0 <= bl < 9 || kind != GroupKind::Blk,
    ensures
        kind == GroupKind::Row ==> propagated_group(partial(x, rl, cl, bl), kind, rl) == partial(
            x,
            rl + 1,
            cl,
            bl,
        ),
        kind == GroupKind::Col ==> propagated_group(partial(x, rl, cl, bl), kind, cl) == partial(
            x,
            rl,
            cl + 1,
            bl,
        ),
        kind == GroupKind::Blk ==> propagated_group(partial(x, rl, cl, bl), kind, bl) == partial(
            x,
            rl,
            cl,
            bl + 1,
        ),
{
    let s = partial(x, rl, cl, bl);
    lemma_partial_locks(x, rl, cl, bl);
    let (g, nr, nc, nb) = bumped(kind, rl, cl, bl);
    lemma_known_same(x, s, kind, g);
    let t = partial(x, nr, nc, nb);
    let p = propagated_group(s, kind, g);
    assert forall|i: int| 0 <= i < 81 implies #[trigger] p[i] == t[i] by {
        lemma_partial_step_at(x, kind, rl, cl, bl, i);
    }
    assert(p =~= t);
}

pub proof fn lemma_partial_ends(x: Seq<CellView>)
    requires
        cells_wf(x),
    ensures
        partial(x, 0, 0, 0) == x,
        partial(x, 9, 9, 9) == propagated_all(x),
{
    assert forall|i: int| 0 <= i < 81 implies #[trigger] partial(x, 0, 0, 0)[i] == x[i] by {
        if !x[i].locked {
            assert(x[i].after_remove(part_mask(x, i, 0, 0, 0)).cands =~= x[i].cands);
        }
    }
    assert(partial(x, 0, 0, 0) =~= x);
    assert forall|i: int| 0 <= i < 81 implies #[trigger] partial(x, 9, 9, 9)[i]
        == propagated_all(x)[i] by {
        lemma_pos(GroupKind::Row, i);
        lemma_pos(GroupKind::Col, i);
        lemma_pos(GroupKind::Blk, i);
        assert(part_mask(x, i, 9, 9, 9) =~= peer_mask(x, i));
    }
    assert(partial(x, 9, 9, 9) =~= propagated_all(x));
}

/// A second elimination pass right after a first one changes nothing.
pub proof fn lemma_propagated_all_idempotent(x: Seq<CellView>)
    requires
        cells_wf(x),
    ensures
        cells_wf(propagated_all(x)),
        same_locks(x, propagated_all(x)),
        propagated_all(propagated_all(x)) == propagated_all(x),
{
    let y = propagated_all(x);
    lemma_partial_ends(x);
    lemma_partial_locks(x, 9, 9, 9);
    assert forall|g: int| 0 <= g < 9 implies known(y, GroupKind::Row, g) == known(x, GroupKind::Row, g)
        && known(y, GroupKind::Col, g) == known(x, GroupKind::Col, g) && known(y, GroupKind::Blk, g)
        == known(x, GroupKind::Blk, g) by {
        lemma_known_same(x, y, GroupKind::Row, g);
        lemma_known_same(x, y, GroupKind::Col, g);
        lemma_known_same(x, y, GroupKind::Blk, g);
    }
    assert forall|i: int| 0 <= i < 81 implies #[trigger] propagated_all(y)[i] == y[i] by {
        lemma_pos(GroupKind::Row, i);
        lemma_pos(GroupKind::Col, i);
        lemma_pos(GroupKind::Blk, i);
        let m = peer_mask(x, i);
        assert(peer_mask(y, i) =~= m);
        lemma_remove_twice(x[i], m, m);
        assert(Seq::new(9, |d: int| m[d] || m[d]) =~= m);
    }
    assert(propagated_all(y) =~= y);
}

pub proof fn lemma_locked_all(x: Seq<CellView>)
    requires
        cells_wf(x),
    ensures
        cells_wf(locked_all(x)),
        keeps_locks(x, locked_all(x)),
        !any_lockable(x) ==> locked_all(x) == x,
        any_lockable(x) ==> locked_count(locked_all(x), 81) > locked_count(x, 81),
        locked_count(locked_all(x), 81) >= locked_count(x, 81),
{
    let y = locked_all(x);
    lemma_locked_count(x, y, 81);
    if !any_lockable(x) {
        assert forall|i: int| 0 <= i < 81 implies #[trigger] y[i] == x[i] by {
            assert(!x[i].lockable());
        }
        assert(y =~= x);
    } else {
        let i = choose|i: int| 0 <= i < 81 && (#[trigger] x[i]).lockable();
        assert(y[i].locked);
    }
}

/// A value of the digit triple `(row, col, value)` lies in range.
pub open spec fn in_range(t: (usize, usize, u8)) -> bool {
    t.0 < 9 && t.1 < 9 && 1 <= t.2 <= 9
}

/// The board after each triple overwrites its cell with the single
/// candidate given, in order.
pub open spec fn installed(x: Seq<CellView>, vals: Seq<(usize, usize, u8)>) -> Seq<CellView>
    decreases vals.len(),
{
    if vals.len() == 0 {
        x
    } else {
        let t = vals.last();
        installed(x, vals.drop_last()).update(
            9 * t.0 + t.1,
            CellView { cands: crate::cell::singleton(t.2 as int), locked: false },
        )
    }
}

/// The board as text: nine lines of nine characters, each ending in a
/// newline.
pub open spec fn render(x: Seq<CellView>) -> Seq<char> {
    Seq::new(90, |k: int| if k % 10 == 9 { '\n' } else { x[9 * (k / 10) + k % 10].glyph() })
}

/// A complete grid of digits, row-major, that obeys the rule: within every
/// row, column and block the 81 digits are pairwise distinct.
pub open spec fn is_assignment(a: Seq<int>) -> bool {
    &&& a.len() == 81
    &&& forall|i: int| 0 <= i < 81 ==> 1 <= #[trigger] a[i] <= 9
    &&& forall|kind: GroupKind, g: int, j1: int, j2: int|
        0 <= g < 9 && 0 <= j1 < 9 && 0 <= j2 < 9 && j1 != j2 ==> #[trigger] a[member(kind, g, j1)]
            != #[trigger] a[member(kind, g, j2)]
}

/// The grid `a` is still open on board `x`: every cell keeps the digit of
/// `a` among its candidates.
pub open spec fn consistent(a: Seq<int>, x: Seq<CellView>) -> bool {
    forall|i: int| 0 <= i < 81 ==> (#[trigger] x[i]).cands[a[i] - 1]
}

/// Board `x` has every cell locked to the digit of `a`.
pub open spec fn holds_assignment(x: Seq<CellView>, a: Seq<int>) -> bool {
    forall|i: int| 0 <= i < 81 ==> (#[trigger] x[i]).locked && x[i].value() == a[i]
}

/// A locked cell that keeps digit `a[i]` is locked to that digit.
pub proof fn lemma_locked_consistent(x: Seq<CellView>, a: Seq<int>, i: int)
    requires
        cells_wf(x),
        is_assignment(a),
        consistent(a, x),
        0 <= i < 81,
        x[i].locked,
    ensures
        x[i].value() == a[i],
        forall|d: int| 0 <= d < 9 ==> (x[i].cands[d] <==> d == a[i] - 1),
{
    lemma_single(x[i].cands);
}

/// Elimination never strikes the digit of a grid that obeys the rule.
pub proof fn lemma_propagated_all_consistent(x: Seq<CellView>, a: Seq<int>)
    requires
        cells_wf(x),
        is_assignment(a),
        consistent(a, x),
    ensures
        consistent(a, propagated_all(x)),
{
    assert forall|i: int| 0 <= i < 81 implies (#[trigger] propagated_all(x)[i]).cands[a[i] - 1] by {
        if !x[i].locked {
            let d = a[i] - 1;
            assert forall|kind: GroupKind| !known(x, kind, group_of(kind, i))[d] by {
                lemma_pos(kind, i);
                let g = group_of(kind, i);
                if known(x, kind, g)[d] {
                    let j = choose|j: int| 0 <= j < 9 && #[trigger] locks_digit(x, kind, g, j, d);
                    lemma_member(kind, g, j);
                    let m = member(kind, g, j);
                    lemma_locked_consistent(x, a, m);
                    assert(a[m] == a[i]);
                    assert(m != i);
                    assert(j != pos_in(kind, i));
                    assert(a[member(kind, g, j)] != a[member(kind, g, pos_in(kind, i))]);
                }
            }
            assert(!peer_mask(x, i)[d]);
        }
    }
}

/// Every candidate left in `y` was a candidate in `x`: candidates are
/// only ever struck, never added back.
pub open spec fn shrinks(x: Seq<CellView>, y: Seq<CellView>) -> bool {
    forall|i: int, d: int| 0 <= i < 81 && 0 <= d < 9 && #[trigger] y[i].cands[d] ==> x[i].cands[d]
}

/// What a run of the propagation loop guarantees: from `x` it reaches a
/// fixpoint `y` that keeps every lock of `x` and only strikes candidates,
/// a board already at a fixpoint is left as it is, and no full grid that
/// obeys the rule is struck.
pub open spec fn solve_result(x: Seq<CellView>, y: Seq<CellView>) -> bool {
    &&& cells_wf(y)
    &&& keeps_locks(x, y)
    &&& shrinks(x, y)
    &&& is_fixpoint(y)
    &&& is_fixpoint(x) ==> y == x
    &&& forall|a: Seq<int>| is_assignment(a) && #[trigger] consistent(a, x) ==> consistent(a, y)
}

/// The fresh board: every digit possible everywhere, nothing locked.
pub open spec fn empty_cells() -> Seq<CellView> {
    Seq::new(81, |i: int| CellView { cands: Seq::new(9, |d: int| true), locked: false })
}

/// A 9x9 grid of cells, stored row-major: the cell at row `r`, column `c`
/// is number `9 * r + c`.
#[derive(Debug)]
pub struct SudokuBoard {
    grid: Vec<SudokuCell>,
}

impl View for SudokuBoard {
    type V = Seq<CellView>;

    closed spec fn view(&self) -> Seq<CellView> {
        self.grid@.map_values(|c: SudokuCell| c@)
    }
}

/// Index of the cell at place `j` of group `g`.
fn member_index(kind: GroupKind, g: usize, j: usize) -> (r: usize)
    requires
        g < 9,
        j < 9,
    ensures
        r == member(kind, g as int, j as int),
        r < 81,
{
    proof {
        lemma_member(kind, g as int, j as int);
    }
    match kind {
        GroupKind::Row => 9 * g + j,
        GroupKind::Col => 9 * j + g,
        GroupKind::Blk => {
            let (row, col) = block_to_board(g);
            9 * (row + j / 3) + col + j % 3
        },
    }
}

impl SudokuBoard {
    /// The board holds 81 well-formed cells.
    pub closed spec fn wf(&self) -> bool {
        &&& self.grid@.len() == 81
        &&& cells_wf(self@)
    }

    /// A well-formed board has 81 well-formed cells.
    pub proof fn lemma_wf(&self)
        requires
            self.wf(),
        ensures
            cells_wf(self@),
    {
    }

    proof fn lemma_view(&self)
        ensures
            self@.len() == self.grid@.len(),
            forall|i: int| 0 <= i < self.grid@.len() ==> #[trigger] self@[i] == self.grid@[i]@,
    {
    }

    /// The digits locked in a group, as a mask.
    pub fn known_group(&self, kind: GroupKind, g: usize) -> (r: [bool; 9])
        requires
            self.wf(),
            g < 9,
        ensures
            r@ == known(self@, kind, g as int),
    {
        proof {
            self.lemma_view();
        }
        let mut known_vals = [false; 9];
        let mut j: usize = 0;
        while j < 9
            invariant
                self.wf(),
                g < 9,
                j <= 9,
                known_vals@ == known_upto(self@, kind, g as int, j as int),
                forall|i: int| 0 <= i < self.grid@.len() ==> #[trigger] self@[i] == self.grid@[i]@,
            decreases 9 - j,
        {
            let idx = member_index(kind, g, j);
            let cell = self.grid[idx];
            let ghost before = known_vals@;
            assert(self@[idx as int] == cell@);
            assert(cell@.wf());
            if cell.is_locked() {
                let v = cell.get_value();
                known_vals[(v - 1) as usize] = true;
                proof {
                    lemma_single(cell@.cands);
                }
            }
            proof {
                assert(self@[idx as int] == cell@);
                assert forall|d: int| 0 <= d < 9 implies known_vals@[d] == known_upto(
                    self@,
                    kind,
                    g as int,
                    j + 1,
                )[d] by {
                    if locks_digit(self@, kind, g as int, j as int, d) {
                        assert(known_upto(self@, kind, g as int, j + 1)[d]);
                    }
                    if known_upto(self@, kind, g as int, j + 1)[d] && !locks_digit(
                        self@,
                        kind,
                        g as int,
                        j as int,
                        d,
                    ) {
                        let jj = choose|jj: int|
                            0 <= jj < j + 1 && #[trigger] locks_digit(self@, kind, g as int, jj, d);
                        assert(before[d]);
                    }
                    if before[d] {
                        let jj = choose|jj: int|
                            0 <= jj < j && #[trigger] locks_digit(self@, kind, g as int, jj, d);
                        assert(known_upto(self@, kind, g as int, j + 1)[d]);
                    }
                }
                assert(known_vals@ =~= known_upto(self@, kind, g as int, j + 1));
            }
            j += 1;
        }
        known_vals
    }

    /// Whether no two locked cells of a group hold the same digit.
    pub fn group_is_valid(&self, kind: GroupKind, g: usize) -> (r: bool)
        requires
            self.wf(),
            g < 9,
        ensures
            r == group_valid(self@, kind, g as int),
    {
        proof {
            self.lemma_view();
        }
        let mut known_vals = [false; 9];
        let mut j: usize = 0;
        while j < 9
            invariant
                self.wf(),
                g < 9,
                j <= 9,
                known_vals@ == known_upto(self@, kind, g as int, j as int),
                valid_upto(self@, kind, g as int, j as int),
                forall|i: int| 0 <= i < self.grid@.len() ==> #[trigger] self@[i] == self.grid@[i]@,
            decreases 9 - j,
        {
            let idx = member_index(kind, g, j);
            let cell = self.grid[idx];
            let ghost before = known_vals@;
            assert(self@[idx as int] == cell@);
            assert(cell@.wf());
            if cell.is_locked() {
                let v = cell.get_value();
                proof {
                    lemma_single(cell@.cands);
                }
                if known_vals[(v - 1) as usize] {
                    proof {
                        let d = v - 1;
                        let jj = choose|jj: int|
                            0 <= jj < j && #[trigger] locks_digit(self@, kind, g as int, jj, d);
                        assert(locks_digit(self@, kind, g as int, j as int, d));
                    }
                    return false;
                }
                known_vals[(v - 1) as usize] = true;
            }
            proof {
                assert forall|d: int| 0 <= d < 9 implies known_vals@[d] == known_upto(
                    self@,
                    kind,
                    g as int,
                    j + 1,
                )[d] by {
                    if locks_digit(self@, kind, g as int, j as int, d) {
                        assert(known_upto(self@, kind, g as int, j + 1)[d]);
                    }
                    if known_upto(self@, kind, g as int, j + 1)[d] && !locks_digit(
                        self@,
                        kind,
                        g as int,
                        j as int,
                        d,
                    ) {
                        let jj = choose|jj: int|
                            0 <= jj < j + 1 && #[trigger] locks_digit(self@, kind, g as int, jj, d);
                        assert(before[d]);
                    }
                    if before[d] {
                        let jj = choose|jj: int|
                            0 <= jj < j && #[trigger] locks_digit(self@, kind, g as int, jj, d);
                        assert(known_upto(self@, kind, g as int, j + 1)[d]);
                    }
                }
                assert(known_vals@ =~= known_upto(self@, kind, g as int, j + 1));
                assert forall|j1: int, j2: int, d: int|
                    0 <= j1 < j + 1 && 0 <= j2 < j + 1 && j1 != j2 && 0 <= d < 9 implies !(
                    #[trigger] locks_digit(self@, kind, g as int, j1, d) && #[trigger] locks_digit(
                        self@,
                        kind,
                        g as int,
                        j2,
                        d,
                    )) by {
                    if j1 == j && locks_digit(self@, kind, g as int, j1, d) && locks_digit(
                        self@,
                        kind,
                        g as int,
                        j2,
                        d,
                    ) {
                        assert(before[d]);
                    }
                    if j2 == j && locks_digit(self@, kind, g as int, j1, d) && locks_digit(
                        self@,
                        kind,
                        g as int,
                        j2,
                        d,
                    ) {
                        assert(before[d]);
                    }
                }
            }
            j += 1;
        }
        true
    }

    /// Strikes the digits locked in a group from every open cell of it.
    pub fn propagate_group(&mut self, kind: GroupKind, g: usize)
        requires
            old(self).wf(),
            g < 9,
        ensures
            final(self).wf(),
            final(self)@ == propagated_group(old(self)@, kind, g as int),
    {
        let mask = self.known_group(kind, g);
        let ghost x = self@;
        proof {
            self.lemma_view();
        }
        let mut j: usize = 0;
        while j < 9
            invariant
                g < 9,
                j <= 9,
                x.len() == 81,
                cells_wf(x),
                mask@ == known(x, kind, g as int),
                self.grid@.len() == 81,
                self@ == Seq::new(
                    81,
                    |i: int|
                        if group_of(kind, i) == g && pos_in(kind, i) < j {
                            x[i].after_remove(mask@)
                        } else {
                            x[i]
                        },
                ),
                forall|i: int| 0 <= i < self.grid@.len() ==> #[trigger] self@[i] == self.grid@[i]@,
            decreases 9 - j,
        {
            let idx = member_index(kind, g, j);
            let mut cell = self.grid[idx];
            let ghost prevv = self@;
            proof {
                lemma_member(kind, g as int, j as int);
                assert(self@[idx as int] == cell@);
                assert(cell@ == x[idx as int]);
            }
            cell.remove_possible_values(&mask);
            let ghost prev = self.grid@;
            self.grid.set(idx, cell);
            proof {
                assert(self.grid@ == prev.update(idx as int, cell));
                assert forall|i: int| 0 <= i < 81 implies #[trigger] self@[i] == (if group_of(
                    kind,
                    i,
                ) == g && pos_in(kind, i) < j + 1 {
                    x[i].after_remove(mask@)
                } else {
                    x[i]
                }) by {
                    lemma_pos(kind, i);
                    assert(self@[i] == self.grid@[i]@);
                    if i == idx {
                        assert(self@[i] == x[i].after_remove(mask@));
                    } else {
                        assert(self.grid@[i] == prev[i]);
                        assert(prevv[i] == prev[i]@);
                        assert(i != member(kind, g as int, j as int));
                    }
                }
                assert(self@ =~= Seq::new(
                    81,
                    |i: int|
                        if group_of(kind, i) == g && pos_in(kind, i) < j + 1 {
                            x[i].after_remove(mask@)
                        } else {
                            x[i]
                        },
                ));
            }
            j += 1;
        }
        proof {
            assert forall|i: int| 0 <= i < 81 implies #[trigger] self@[i] == propagated_group(
                x,
                kind,
                g as int,
            )[i] by {
                lemma_pos(kind, i);
            }
            assert(self@ =~= propagated_group(x, kind, g as int));
        }
    }

    /// One elimination pass over every row, column and block.
    pub fn propagate_all(&mut self)
        requires
            old(self).wf(),
        ensures
            final(self).wf(),
            final(self)@ == propagated_all(old(self)@),
    {
        let ghost x = self@;
        proof {
            lemma_partial_ends(x);
        }
        let mut zz: usize = 0;
        while zz < 9
            invariant
                zz <= 9,
                cells_wf(x),
                self.wf(),
                self@ == partial(x, zz as int, zz as int, zz as int),
            decreases 9 - zz,
        {
            proof {
                lemma_partial_step(x, GroupKind::Row, zz as int, zz as int, zz as int);
                lemma_partial_step(x, GroupKind::Col, zz + 1, zz as int, zz as int);
                lemma_partial_step(x, GroupKind::Blk, zz + 1, zz + 1, zz as int);
            }
            self.solve_row(zz);
            self.solve_col(zz);
            self.solve_blk(zz);
            zz += 1;
        }
    }

    /// Tries to lock every cell; returns whether any cell became locked.
    pub fn apply_lock_board(&mut self) -> (r: bool)
        requires
            old(self).wf(),
        ensures
            final(self).wf(),
            final(self)@ == locked_all(old(self)@),
            r == any_lockable(old(self)@),
    {
        let ghost x = self@;
        proof {
            self.lemma_view();
        }
        let mut new_locks = false;
        let mut i: usize = 0;
        while i < 81
            invariant
                i <= 81,
                cells_wf(x),
                self.grid@.len() == 81,
                self@ == Seq::new(81, |k: int| if k < i { x[k].after_lock() } else { x[k] }),
                new_locks == exists|k: int| 0 <= k < i && (#[trigger] x[k]).lockable(),
                forall|k: int| 0 <= k < self.grid@.len() ==> #[trigger] self@[k] == self.grid@[k]@,
            decreases 81 - i,
        {
            let mut cell = self.grid[i];
            let ghost prevv = self@;
            assert(self@[i as int] == self.grid@[i as int]@);
            assert(cell@ == x[i as int]);
            let locked_now = cell.apply_lock();
            let ghost prev = self.grid@;
            self.grid.set(i, cell);
            new_locks = new_locks || locked_now;
            proof {
                assert(self.grid@ == prev.update(i as int, cell));
                assert forall|k: int| 0 <= k < 81 implies #[trigger] self@[k] == (if k < i + 1 {
                    x[k].after_lock()
                } else {
                    x[k]
                }) by {
                    assert(self@[k] == self.grid@[k]@);
                    if k != i {
                        assert(self.grid@[k] == prev[k]);
                        assert(prevv[k] == prev[k]@);
                    }
                }
                assert(self@ =~= Seq::new(
                    81,
                    |k: int|
                        if k < i + 1 {
                            x[k].after_lock()
                        } else {
                            x[k]
                        },
                ));
                if locked_now {
                    assert(x[i as int].lockable());
                }
            }
            i += 1;
        }
        proof {
            assert(self@ =~= locked_all(x));
            lemma_locked_all(x);
        }
        new_locks
    }

    /// Elimination and locking repeated until a round locks no new cell.
    pub fn solve_board(&mut self)
        requires
            old(self).wf(),
        ensures
            final(self).wf(),
            solve_result(old(self)@, final(self)@),
    {
        let ghost x0 = self@;
        loop
            invariant
                self.wf(),
                keeps_locks(x0, self@),
                shrinks(x0, self@),
                is_fixpoint(x0) ==> self@ == x0,
                forall|a: Seq<int>| is_assignment(a) && #[trigger] consistent(a, x0) ==> consistent(a, self@),
            ensures
                self.wf(),
                keeps_locks(x0, self@),
                shrinks(x0, self@),
                forall|a: Seq<int>| is_assignment(a) && #[trigger] consistent(a, x0) ==> consistent(a, self@),
                is_fixpoint(self@),
                is_fixpoint(x0) ==> self@ == x0,
            decreases 81 - locked_count(self@, 81),
        {
            let ghost before = self@;
            self.propagate_all();
            let ghost mid = self@;
            proof {
                lemma_propagated_all_idempotent(before);
                lemma_locked_all(mid);
                lemma_locked_count(before, mid, 81);
                lemma_locked_count(mid, locked_all(mid), 81);
                assert forall|i: int, d: int|
                    0 <= i < 81 && 0 <= d < 9 && #[trigger] locked_all(mid)[i].cands[d] implies x0[i].cands[d] by {
                    assert(mid[i] == before[i].after_remove(peer_mask(before, i)));
                    assert(mid[i].cands[d]);
                    assert(before[i].cands[d]);
                }
                assert forall|a: Seq<int>| is_assignment(a) && #[trigger] consistent(a, x0) implies consistent(
                    a,
                    locked_all(mid),
                ) by {
                    lemma_propagated_all_consistent(before, a);
                    assert(consistent(a, mid));
                    assert forall|i: int| 0 <= i < 81 implies (#[trigger] locked_all(mid)[i]).cands[a[i] - 1] by {
                        assert(mid[i].cands[a[i] - 1]);
                    }
                }
            }
            let changed = self.apply_lock_board();
            if !changed {
                break;
            }
        }
    }

    /// Whether some open cell has no candidate left.
    pub fn has_impossible_cells(&self) -> (r: bool)
        requires
            self.wf(),
        ensures
            r == has_contradiction(self@),
    {
        proof {
            self.lemma_view();
        }
        let mut i: usize = 0;
        while i < 81
            invariant
                i <= 81,
                self.wf(),
                forall|k: int| 0 <= k < i ==> !(#[trigger] self@[k]).contradictory(),
                forall|k: int| 0 <= k < self.grid@.len() ==> #[trigger] self@[k] == self.grid@[k]@,
            decreases 81 - i,
        {
            let cell = self.grid[i];
            assert(cell@ == self@[i as int]);
            if cell.no_possible_value() {
                proof {
                    if cell@.locked {
                        lemma_single(cell@.cands);
                    }
                }
                return true;
            }
            i += 1;
        }
        false
    }

    /// Whether every row, column and block is valid.
    pub fn is_valid(&self) -> (r: bool)
        requires
            self.wf(),
        ensures
            r == board_valid(self@),
    {
        let mut valid = true;
        let mut zz: usize = 0;
        while zz < 9
            invariant
                zz <= 9,
                self.wf(),
                valid ==> forall|g: int|
                    0 <= g < zz ==> #[trigger] group_valid(self@, GroupKind::Row, g) && group_valid(
                        self@,
                        GroupKind::Col,
                        g,
                    ) && group_valid(self@, GroupKind::Blk, g),
                !valid ==> !board_valid(self@),
            decreases 9 - zz,
        {
            let a = self.is_valid_row(zz);
            let b = self.is_valid_col(zz);
            let c = self.is_valid_blk(zz);
            proof {
                if valid && a && b && c {
                    assert forall|g: int| 0 <= g < zz + 1 implies #[trigger] group_valid(
                        self@,
                        GroupKind::Row,
                        g,
                    ) && group_valid(self@, GroupKind::Col, g) && group_valid(
                        self@,
                        GroupKind::Blk,
                        g,
                    ) by {
                        if g < zz {
                        }
                    }
                }
                if !(a && b && c) {
                    assert(!group_valid(self@, GroupKind::Row, zz as int) || !group_valid(
                        self@,
                        GroupKind::Col,
                        zz as int,
                    ) || !group_valid(self@, GroupKind::Blk, zz as int));
                }
            }
            valid = valid && a && b && c;
            zz += 1;
        }
        valid
    }

    /// Whether the board is solved: every cell locked, none contradictory,
    /// every group valid.
    pub fn is_solved(&self) -> (r: bool)
        requires
            self.wf(),
        ensures
            r == solved(self@),
    {
        proof {
            self.lemma_view();
        }
        let mut all = true;
        let mut i: usize = 0;
        while i < 81
            invariant
                i <= 81,
                self.wf(),
                all == forall|k: int| 0 <= k < i ==> (#[trigger] self@[k]).locked,
                forall|k: int| 0 <= k < self.grid@.len() ==> #[trigger] self@[k] == self.grid@[k]@,
            decreases 81 - i,
        {
            let cell = self.grid[i];
            assert(cell@ == self@[i as int]);
            all = all && cell.is_locked();
            i += 1;
        }
        let impossible = self.has_impossible_cells();
        let valid = self.is_valid();
        all && !impossible && valid
    }

    /// The cell at row `rr`, column `cc`.
    pub fn get_cell(&self, rr: usize, cc: usize) -> (r: SudokuCell)
        requires
            self.wf(),
            rr < 9,
            cc < 9,
        ensures
            r@ == self@[9 * rr + cc],
    {
        proof {
            self.lemma_view();
        }
        self.grid[9 * rr + cc]
    }

    /// A board in which every cell has all nine digits possible.
    pub fn new_empty_board() -> (r: SudokuBoard)
        ensures
            r.wf(),
            r@ == empty_cells(),
    {
        let mut grid: Vec<SudokuCell> = Vec::new();
        let mut i: usize = 0;
        while i < 81
            invariant
                i <= 81,
                grid@.len() == i,
                forall|k: int|
                    0 <= k < i ==> #[trigger] grid@[k]@ == (CellView {
                        cands: Seq::new(9, |d: int| true),
                        locked: false,
                    }),
            decreases 81 - i,
        {
            grid.push(SudokuCell::new());
            i += 1;
        }
        let r = SudokuBoard { grid };
        proof {
            r.lemma_view();
            assert(r@ =~= empty_cells());
        }
        r
    }

    /// An independent copy of the board.
    pub fn duplicate(&self) -> (r: SudokuBoard)
        requires
            self.wf(),
        ensures
            r.wf(),
            r@ == self@,
    {
        let mut grid: Vec<SudokuCell> = Vec::new();
        let mut i: usize = 0;
        while i < 81
            invariant
                i <= 81,
                self.grid@.len() == 81,
                grid@.len() == i,
                forall|k: int| 0 <= k < i ==> #[trigger] grid@[k] == self.grid@[k],
            decreases 81 - i,
        {
            grid.push(self.grid[i]);
            i += 1;
        }
        let r = SudokuBoard { grid };
        proof {
            assert(r.grid@ =~= self.grid@);
        }
        r
    }

    /// Overwrites the cell of each `(row, col, value)` triple with the single
    /// candidate `value`, then tries once to lock every cell. A triple out of
    /// range rejects the whole call: the board is left as it was and the
    /// result is `false`.
    pub fn set_values(&mut self, values: Vec<(usize, usize, u8)>) -> (r: bool)
        requires
            old(self).wf(),
        ensures
            final(self).wf(),
            r == forall|k: int| 0 <= k < values@.len() ==> #[trigger] in_range(values@[k]),
            r ==> final(self)@ == locked_all(installed(old(self)@, values@)),
            !r ==> final(self)@ == old(self)@,
    {
        let mut k: usize = 0;
        while k < values.len()
            invariant
                k <= values@.len(),
                self.wf(),
                forall|m: int| 0 <= m < k ==> #[trigger] in_range(values@[m]),
            decreases values@.len() - k,
        {
            let (r, c, v) = values[k];
            if !(r < 9 && c < 9 && 1 <= v && v <= 9) {
                assert(!in_range(values@[k as int]));
                return false;
            }
            k += 1;
        }
        let ghost x = self@;
        proof {
            self.lemma_view();
            assert(values@.take(0) =~= Seq::<(usize, usize, u8)>::empty());
        }
        let mut k: usize = 0;
        while k < values.len()
            invariant
                k <= values@.len(),
                forall|m: int| 0 <= m < values@.len() ==> #[trigger] in_range(values@[m]),
                self.wf(),
                self@ == installed(x, values@.take(k as int)),
                forall|i: int| 0 <= i < self.grid@.len() ==> #[trigger] self@[i] == self.grid@[i]@,
            decreases values@.len() - k,
        {
            let (r, c, v) = values[k];
            assert(in_range(values@[k as int]));
            let ghost prev = self.grid@;
            let idx = 9 * r + c;
            let cell = SudokuCell::given(v);
            self.grid.set(idx, cell);
            proof {
                crate::cell::lemma_singleton(v as int);
                assert(values@.take(k + 1).drop_last() =~= values@.take(k as int));
                assert(self.grid@ == prev.update(idx as int, cell));
                assert forall|i: int| 0 <= i < self.grid@.len() implies #[trigger] self@[i]
                    == self.grid@[i]@ by {}
                assert(self@ =~= installed(x, values@.take(k + 1)));
            }
            k += 1;
        }
        proof {
            assert(values@.take(values@.len() as int) =~= values@);
        }
        self.apply_lock_board();
        true
    }

    /// Whether no two locked cells of row `r` hold the same digit.
    pub fn is_valid_row(&self, r: usize) -> (v: bool)
        requires
            self.wf(),
            r < 9,
        ensures
            v == group_valid(self@, GroupKind::Row, r as int),
    {
        self.group_is_valid(GroupKind::Row, r)
    }

    /// The digits locked in row `r`.
    pub fn known_rows(&self, r: usize) -> (m: [bool; 9])
        requires
            self.wf(),
            r < 9,
        ensures
            m@ == known(self@, GroupKind::Row, r as int),
    {
        self.known_group(GroupKind::Row, r)
    }

    /// Strikes the digits locked in row `r` from its open cells.
    pub fn solve_row(&mut self, r: usize)
        requires
            old(self).wf(),
            r < 9,
        ensures
            final(self).wf(),
            final(self)@ == propagated_group(old(self)@, GroupKind::Row, r as int),
    {
        self.propagate_group(GroupKind::Row, r)
    }

    /// Whether no two locked cells of column `c` hold the same digit.
    pub fn is_valid_col(&self, c: usize) -> (v: bool)
        requires
            self.wf(),
            c < 9,
        ensures
            v == group_valid(self@, GroupKind::Col, c as int),
    {
        self.group_is_valid(GroupKind::Col, c)
    }

    /// The digits locked in column `c`.
    pub fn known_cols(&self, c: usize) -> (m: [bool; 9])
        requires
            self.wf(),
            c < 9,
        ensures
            m@ == known(self@, GroupKind::Col, c as int),
    {
        self.known_group(GroupKind::Col, c)
    }

    /// Strikes the digits locked in column `c` from its open cells.
    pub fn solve_col(&mut self, c: usize)
        requires
            old(self).wf(),
            c < 9,
        ensures
            final(self).wf(),
            final(self)@ == propagated_group(old(self)@, GroupKind::Col, c as int),
    {
        self.propagate_group(GroupKind::Col, c)
    }

    /// Whether no two locked cells of block `b` hold the same digit.
    pub fn is_valid_blk(&self, b: usize) -> (v: bool)
        requires
            self.wf(),
            b < 9,
        ensures
            v == group_valid(self@, GroupKind::Blk, b as int),
    {
        self.group_is_valid(GroupKind::Blk, b)
    }

    /// The digits locked in block `b`.
    pub fn known_blks(&self, b: usize) -> (m: [bool; 9])
        requires
            self.wf(),
            b < 9,
        ensures
            m@ == known(self@, GroupKind::Blk, b as int),
    {
        self.known_group(GroupKind::Blk, b)
    }

    /// Strikes the digits locked in block `b` from its open cells.
    pub fn solve_blk(&mut self, b: usize)
        requires
            old(self).wf(),
            b < 9,
        ensures
            final(self).wf(),
            final(self)@ == propagated_group(old(self)@, GroupKind::Blk, b as int),
    {
        self.propagate_group(GroupKind::Blk, b)
    }

    /// The board as text: one line per row, one character per cell.
    pub fn stringify(&self) -> (r: String)
        requires
            self.wf(),
        ensures
            r@ == render(self@),
    {
        let mut s = String::new();
        let mut rr: usize = 0;
        proof {
            reveal_strlit("\n");
        }
        while rr < 9
            invariant
                rr <= 9,
                self.wf(),
                s@ == render(self@).subrange(0, 10 * rr),
            decreases 9 - rr,
        {
            let mut cc: usize = 0;
            while cc < 9
                invariant
                    rr < 9,
                    cc <= 9,
                    self.wf(),
                    s@ == render(self@).subrange(0, 10 * rr + cc),
                decreases 9 - cc,
            {
                let cell = self.get_cell(rr, cc);
                proof {
                    self.lemma_wf();
                }
                let part = cell.stringify();
                s.append(part.as_str());
                assert(s@ =~= render(self@).subrange(0, 10 * rr + cc + 1));
                cc += 1;
            }
            s.append("\n");
            proof {
                reveal_strlit("\n");
            }
            assert(s@ =~= render(self@).subrange(0, 10 * rr + 10));
            rr += 1;
        }
        assert(s@ =~= render(self@));
        s
    }
}

} // verus!
