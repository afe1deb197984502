//! Laws that relate several board operations, proved once and for all
//! boards: a cancelled chain restarts cleanly, and a finished decay drops
//! the column above it by exactly one row.

use vstd::prelude::*;

use crate::cell::{vacated_ceil, Ceil, CeilType};
use crate::field::{
    after_cells, after_commit, commit_cond, deselect_cell, extend_cond, lemma_commit_award_no_bonus,
    lemma_flat_to_coords, lemma_idx_bounds, lemma_idx_distinct, select_rel, FieldModel,
};
use crate::grid;
use crate::settings::SCORES_FOR_CHECKED;

verus! {

/// Law: cancelling the chain and then clicking any selectable cell starts a
/// fresh chain there — its chain index becomes 1 — whatever the chain looked
/// like before.
///
/// `mid` is the board `deselect` leaves, `post` the board the click leaves.
pub proof fn lemma_deselect_then_select_starts(
    pre: FieldModel,
    mid: FieldModel,
    post: FieldModel,
    x: int,
    y: int,
)
    requires
        pre.wf(),
        mid == (FieldModel {
            cells: pre.cells.map_values(|c: Ceil| deselect_cell(c)),
            ..pre
        }),
        select_rel(mid, post, x, y),
        pre.in_bounds(x, y),
        pre.at(x, y).ceil_type == CeilType::Active,
    ensures
        post.at(x, y).checked == 1,
{
    lemma_idx_bounds(pre, x, y);
    assert(mid.cells.len() == pre.cells.len());
    assert forall|i: int| 0 <= i < mid.cells.len() implies mid.cells[i].checked <= 0 by {
        assert(mid.cells[i] == deselect_cell(pre.cells[i]));
    }
    grid::lemma_chain_ok_when_none(mid.cells);
    let target = mid.idx(x, y);
    assert(mid.at(x, y) == deselect_cell(pre.at(x, y)));
    assert(mid.at(x, y).ceil_type == CeilType::Active);
    if extend_cond(mid, x, y) {
        let c = Ceil {
            letter: mid.at(x, y).letter,
            checked: (mid.max_checked() + 1) as i32,
            ceil_type: CeilType::Active,
        };
        assert(post == after_cells(mid, mid.cells.update(target, c)));
        assert(post.at(x, y) == c);
    } else {
        let c = Ceil { letter: mid.at(x, y).letter, checked: 1i32, ceil_type: CeilType::Active };
        assert(post == after_cells(mid, mid.cells.update(target, c)));
        assert(post.at(x, y) == c);
    }
}

/// Law: committing a word while no bonus cell is active awards the
/// selected-cell score for every selected cell, doubled — and under the
/// chain invariant that is the score times twice the chain's length. The
/// bounds on the resulting sum leave out only the scores at which the
/// running total clips at the `i32` range.
///
/// `post` is the board the committing click leaves.
pub proof fn lemma_commit_scores_without_bonus(
    pre: FieldModel,
    post: FieldModel,
    x: int,
    y: int,
)
    requires
        pre.wf(),
        pre.in_bounds(x, y),
        pre.at(x, y).ceil_type == CeilType::Active,
        commit_cond(pre, x, y),
        !pre.any_bonus(),
        select_rel(pre, post, x, y),
        i32::MIN <= pre.scores + 2 * (SCORES_FOR_CHECKED as int) * (grid::count_pos(
            pre.cells,
        ) as int),
        pre.scores + 2 * (SCORES_FOR_CHECKED as int) * (grid::count_pos(pre.cells) as int)
            <= i32::MAX,
    ensures
        post.scores == pre.scores + 2 * (SCORES_FOR_CHECKED as int) * (grid::count_pos(
            pre.cells,
        ) as int),
        pre.chain_ok() ==> post.scores == pre.scores + 2 * (SCORES_FOR_CHECKED as int)
            * pre.max_checked(),
{
    // The click lands in the relation's commit branch: the target carries
    // the largest chain index, so it is neither unselected nor a start.
    assert(pre.at(x, y).checked == pre.max_checked());
    assert(!extend_cond(pre, x, y));
    assert(post == after_commit(pre));
    lemma_commit_award_no_bonus(pre, pre.cells.len() as int);
    assert(pre.cells.subrange(0, pre.cells.len() as int) =~= pre.cells);
    assert(crate::field::commit_award(pre, pre.cells.len() as int) == (SCORES_FOR_CHECKED as int)
        * (grid::count_pos(pre.cells) as int));
    let v = pre.scores + 2 * crate::field::commit_award(pre, pre.cells.len() as int);
    assert(v == pre.scores + 2 * (SCORES_FOR_CHECKED as int) * (grid::count_pos(
        pre.cells,
    ) as int)) by (nonlinear_arith)
        requires
            v == pre.scores + 2 * crate::field::commit_award(pre, pre.cells.len() as int),
            crate::field::commit_award(pre, pre.cells.len() as int) == (
            SCORES_FOR_CHECKED as int) * (grid::count_pos(pre.cells) as int),
    ;
    assert(crate::field::clip_i32(v) == v);
    assert(post.scores == crate::field::clip_i32(v));
    if pre.chain_ok() {
        grid::lemma_chain_selected_count(pre.cells);
    }
}

/// Law: when exactly one cell has finished its decay countdown and every
/// other cell is live, one tick vacates that cell, drops each live cell
/// above it in its column down one row, and leaves the gap at the top of
/// the column; everything else is untouched.
///
/// `post` is the board `tick` leaves.
pub proof fn lemma_gravity_after_decay(pre: FieldModel, post: FieldModel, x: int, y: int)
    requires
        pre.wf(),
        pre.in_bounds(x, y),
        pre.at(x, y).checked == -1,
        forall|i: int|
            0 <= i < pre.cells.len() && i != pre.idx(x, y) ==> pre.cells[i].checked >= 0,
        post == (FieldModel {
            cells: grid::tick_upto(pre.cells, pre.width, pre.cells.len() as int),
            ..pre
        }),
    ensures
        post.at(x, 0) == vacated_ceil(),
        forall|r: int| 1 <= r <= y ==> post.at(x, r) == pre.at(x, r - 1),
        forall|r: int| y < r < pre.height ==> post.at(x, r) == pre.at(x, r),
        forall|cx: int, cy: int|
            pre.in_bounds(cx, cy) && cx != x ==> post.at(cx, cy) == pre.at(cx, cy),
{
    let w = pre.width;
    let n = pre.cells.len() as int;
    let k = pre.idx(x, y);
    lemma_idx_bounds(pre, x, y);

    // The tick walks untouched over the live cells before `(x, y)`.
    grid::lemma_tick_upto_noop(pre.cells, w, k);
    assert(grid::tick_upto(pre.cells, w, k + 1) == grid::tick_cell_step(pre.cells, w, k));

    // The step at `(x, y)` vacates it and collapses its column.
    let vac = pre.cells.update(k, vacated_ceil());
    assert(grid::tick_cell_step(pre.cells, w, k) == grid::down_cells(vac, w, x, y));
    let g1 = grid::down_cells(vac, w, x, y);

    // The falling cell comes to rest on the top row: every row above was
    // live already.
    grid::lemma_stop_row(vac, w, x, y);
    let s = grid::stop_row(vac, w, x, y);
    if s > 0 {
        lemma_idx_bounds(pre, x, s - 1);
        lemma_idx_distinct(pre, x, s - 1, x, y);
        assert(vac[(s - 1) * w + x] == pre.cells[pre.idx(x, s - 1)]);
        assert(false);
    }

    // Past `(x, y)` the grid is all live again, so the rest of the tick
    // changes nothing.
    assert forall|j: int|
        k + 1 <= j < n implies #[trigger] grid::tick_upto(pre.cells, w, k + 1)[j].checked
        >= 0 by {
        lemma_flat_to_coords(pre, j);
        if j % w == x {
            assert(j / w > y) by (nonlinear_arith)
                requires
                    w >= 1,
                    j == (j / w) * w + (j % w),
                    k == y * w + x,
                    j % w == x,
                    j > k,
            ;
        }
        assert(g1[j] == vac[j]);
        assert(vac[j] == pre.cells[j]);
    }
    grid::lemma_tick_upto_frozen(pre.cells, w, k + 1, n);
    assert(post.cells == g1);

    // Read the column shape off the collapse.
    lemma_idx_bounds(pre, x, 0);
    assert(post.at(x, 0) == g1[pre.idx(x, 0)]);
    assert(post.at(x, 0) == vac[k]);
    assert forall|r: int| 1 <= r <= y implies post.at(x, r) == pre.at(x, r - 1) by {
        lemma_idx_bounds(pre, x, r);
        lemma_idx_bounds(pre, x, r - 1);
        lemma_idx_distinct(pre, x, r - 1, x, y);
        assert(g1[pre.idx(x, r)] == vac[(r - 1) * w + x]);
        assert(vac[pre.idx(x, r - 1)] == pre.cells[pre.idx(x, r - 1)]);
    }
    assert forall|r: int| y < r < pre.height implies post.at(x, r) == pre.at(x, r) by {
        lemma_idx_bounds(pre, x, r);
        lemma_idx_distinct(pre, x, r, x, y);
        assert(g1[pre.idx(x, r)] == vac[pre.idx(x, r)]);
    }
    assert forall|cx: int, cy: int|
        pre.in_bounds(cx, cy) && cx != x implies post.at(cx, cy) == pre.at(cx, cy) by {
        lemma_idx_bounds(pre, cx, cy);
        lemma_idx_distinct(pre, cx, cy, x, y);
        assert(g1[pre.idx(cx, cy)] == vac[pre.idx(cx, cy)]);
    }
}

} // verus!
