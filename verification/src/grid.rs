//! Specs and lemmas over a flat row-major grid of cells: counting chain
//! indices, the largest chain index, and the chain invariant that selection
//! keeps: the positive `checked` values are exactly `1..=k`, each once.

use vstd::prelude::*;

use crate::cell::{vacated_ceil, Ceil, CeilType};
use crate::settings::DECAY_STEP;

verus! {

/// How many cells of the grid carry the chain index `v`.
pub open spec fn count_val(cells: Seq<Ceil>, v: int) -> nat
    decreases cells.len(),
{
    if cells.len() == 0 {
        0
    } else {
        count_val(cells.drop_last(), v) + if cells.last().checked == v {
            1nat
        } else {
            0nat
        }
    }
}

/// The largest `checked` value among the first `k` cells, floored at zero.
pub open spec fn max_checked_upto(cells: Seq<Ceil>, k: int) -> int
    decreases k,
{
    if k <= 0 {
        0
    } else {
        let m = max_checked_upto(cells, k - 1);
        if cells[k - 1].checked > m {
            cells[k - 1].checked as int
        } else {
            m
        }
    }
}

/// The largest chain index on the grid, zero when no cell is selected.
pub open spec fn max_checked(cells: Seq<Ceil>) -> int {
    max_checked_upto(cells, cells.len() as int)
}

/// The chain invariant: the positive `checked` values form `1..=k` with no
/// duplicates and no gaps, where `k` is the largest chain index.
pub open spec fn chain_ok(cells: Seq<Ceil>) -> bool {
    forall|v: int|
        1 <= v ==> count_val(cells, v) == (if v <= max_checked(cells) {
            1nat
        } else {
            0nat
        })
}

/// No cell is selected: the state a commit or a cancel leaves behind.
pub open spec fn unselected_all(cells: Seq<Ceil>) -> bool {
    forall|i: int| 0 <= i < cells.len() ==> (#[trigger] cells[i]).checked <= 0
}

/// Every decay countdown is one the pacing constants produce, so a tick's
/// step never carries it past `-1` into the selected range.
pub open spec fn decay_paced(cells: Seq<Ceil>) -> bool {
    forall|i: int|
        0 <= i < cells.len() && (#[trigger] cells[i]).checked < 0 ==> (cells[i].checked as int) % (
        DECAY_STEP as int) == (-1int) % (DECAY_STEP as int)
}

/// The first position at or after `k` whose cell carries the chain index
/// `v`, or `-1` when none does.
pub open spec fn first_idx_with(cells: Seq<Ceil>, v: int, k: int) -> int
    decreases cells.len() - k,
{
    if k >= cells.len() {
        -1
    } else if cells[k].checked == v {
        k
    } else {
        first_idx_with(cells, v, k + 1)
    }
}

/// The letter of the first cell in row-major order with chain index `v`,
/// or the placeholder `'x'` when no cell carries it.
pub open spec fn letter_at_value(cells: Seq<Ceil>, v: int) -> char {
    let k = first_idx_with(cells, v, 0);
    if k >= 0 {
        cells[k].letter
    } else {
        'x'
    }
}

/// The word the chain spells: the letters at chain indices `1..=n`, in order.
pub open spec fn chain_word(cells: Seq<Ceil>, n: int) -> Seq<char>
    decreases n,
{
    if n <= 0 {
        Seq::empty()
    } else {
        chain_word(cells, n - 1).push(letter_at_value(cells, n))
    }
}

/// Counting a value in an updated grid: only the replaced cell matters.
pub proof fn lemma_count_update(cells: Seq<Ceil>, i: int, c: Ceil, v: int)
    requires
        0 <= i < cells.len(),
    ensures
        count_val(cells.update(i, c), v) == count_val(cells, v) - (if cells[i].checked == v {
            1int
        } else {
            0int
        }) + (if c.checked == v {
            1int
        } else {
            0int
        }),
    decreases cells.len(),
{
    let n = cells.len() as int;
    if i == n - 1 {
        assert(cells.update(i, c).drop_last() =~= cells.drop_last());
    } else {
        assert(cells.update(i, c).drop_last() =~= cells.drop_last().update(i, c));
        lemma_count_update(cells.drop_last(), i, c, v);
    }
}

/// A value is absent from the grid exactly when its count is zero.
pub proof fn lemma_count_zero(cells: Seq<Ceil>, v: int)
    ensures
        (count_val(cells, v) == 0) <==> (forall|i: int|
            0 <= i < cells.len() ==> cells[i].checked != v),
    decreases cells.len(),
{
    if cells.len() > 0 {
        lemma_count_zero(cells.drop_last(), v);
        if count_val(cells, v) == 0 {
            assert forall|i: int| 0 <= i < cells.len() implies cells[i].checked != v by {
                if i < cells.len() - 1 {
                    assert(cells.drop_last()[i] == cells[i]);
                } else {
                    assert(cells.last() == cells[i]);
                }
            }
        }
        if forall|i: int| 0 <= i < cells.len() ==> cells[i].checked != v {
            assert forall|i: int|
                0 <= i < cells.drop_last().len() implies cells.drop_last()[i].checked != v by {
                assert(cells.drop_last()[i] == cells[i]);
            }
        }
    }
}

/// How many cells of the grid are selected: carry a positive chain index.
pub open spec fn count_pos(cells: Seq<Ceil>) -> nat
    decreases cells.len(),
{
    if cells.len() == 0 {
        0
    } else {
        count_pos(cells.drop_last()) + if cells.last().checked > 0 {
            1nat
        } else {
            0nat
        }
    }
}

/// Counting selected cells in an updated grid: only the replaced cell
/// matters.
pub proof fn lemma_count_pos_update(cells: Seq<Ceil>, i: int, c: Ceil)
    requires
        0 <= i < cells.len(),
    ensures
        count_pos(cells.update(i, c)) == count_pos(cells) - (if cells[i].checked > 0 {
            1int
        } else {
            0int
        }) + (if c.checked > 0 {
            1int
        } else {
            0int
        }),
    decreases cells.len(),
{
    let n = cells.len() as int;
    if i == n - 1 {
        assert(cells.update(i, c).drop_last() =~= cells.drop_last());
    } else {
        assert(cells.update(i, c).drop_last() =~= cells.drop_last().update(i, c));
        lemma_count_pos_update(cells.drop_last(), i, c);
    }
}

/// No cell is selected exactly when the selected count is zero.
pub proof fn lemma_count_pos_zero(cells: Seq<Ceil>)
    ensures
        (count_pos(cells) == 0) <==> (forall|i: int|
            0 <= i < cells.len() ==> cells[i].checked <= 0),
    decreases cells.len(),
{
    if cells.len() > 0 {
        lemma_count_pos_zero(cells.drop_last());
        if count_pos(cells) == 0 {
            assert forall|i: int| 0 <= i < cells.len() implies cells[i].checked <= 0 by {
                if i < cells.len() - 1 {
                    assert(cells.drop_last()[i] == cells[i]);
                } else {
                    assert(cells.last() == cells[i]);
                }
            }
        }
        if forall|i: int| 0 <= i < cells.len() ==> cells[i].checked <= 0 {
            assert forall|i: int|
                0 <= i < cells.drop_last().len() implies cells.drop_last()[i].checked <= 0 by {
                assert(cells.drop_last()[i] == cells[i]);
            }
        }
    }
}

/// A cell that carries a value makes its count at least one.
pub proof fn lemma_count_ge_one(cells: Seq<Ceil>, v: int, i: int)
    requires
        0 <= i < cells.len(),
        cells[i].checked == v,
    ensures
        count_val(cells, v) >= 1,
    decreases cells.len(),
{
    if i < cells.len() - 1 {
        assert(cells.drop_last()[i] == cells[i]);
        lemma_count_ge_one(cells.drop_last(), v, i);
    }
}

/// A counted value is carried by some cell.
pub proof fn lemma_count_val_pos_exists(cells: Seq<Ceil>, v: int)
    requires
        count_val(cells, v) > 0,
    ensures
        exists|i: int| 0 <= i < cells.len() && cells[i].checked == v,
    decreases cells.len(),
{
    if cells.last().checked == v {
        assert(cells[cells.len() - 1].checked == v);
    } else {
        lemma_count_val_pos_exists(cells.drop_last(), v);
        let i = choose|i: int|
            0 <= i < cells.drop_last().len() && cells.drop_last()[i].checked == v;
        assert(cells[i].checked == v);
    }
}

/// Under the chain invariant the number of selected cells is exactly the
/// chain's length: the chain indices `1..=k` sit on `k` distinct cells.
pub proof fn lemma_chain_selected_count(cells: Seq<Ceil>)
    requires
        chain_ok(cells),
    ensures
        count_pos(cells) == max_checked(cells),
    decreases max_checked(cells),
{
    lemma_max_checked(cells);
    let k = max_checked(cells);
    if k == 0 {
        assert forall|i: int| 0 <= i < cells.len() implies cells[i].checked <= 0 by {
            if cells[i].checked > 0 {
                let v = cells[i].checked as int;
                lemma_count_ge_one(cells, v, i);
                assert(count_val(cells, v) == 0);
            }
        }
        lemma_count_pos_zero(cells);
    } else {
        // Unselect the cell carrying the largest index: the chain invariant
        // then holds with `k - 1`, and one fewer cell is selected.
        assert(count_val(cells, k) == 1);
        lemma_count_val_pos_exists(cells, k);
        let i = choose|i: int| 0 <= i < cells.len() && cells[i].checked == k;
        let c0 = Ceil { letter: cells[i].letter, checked: 0, ceil_type: cells[i].ceil_type };
        let rest = cells.update(i, c0);
        assert forall|v: int| 1 <= v implies count_val(rest, v) == (if v <= k - 1 {
            1nat
        } else {
            0nat
        }) by {
            lemma_count_update(cells, i, c0, v);
        }
        assert forall|j: int| 0 <= j < rest.len() implies rest[j].checked <= k - 1 by {
            if j != i {
                assert(rest[j] == cells[j]);
                if cells[j].checked == k {
                    lemma_count_ge_one(rest, k, j);
                    assert(count_val(rest, k) == 0);
                }
            }
        }
        if k - 1 > 0 {
            assert(count_val(rest, k - 1) == 1);
            lemma_count_val_pos_exists(rest, k - 1);
        }
        lemma_max_checked_is(rest, k - 1);
        lemma_chain_selected_count(rest);
        lemma_count_pos_update(cells, i, c0);
    }
}

/// What `max_checked_upto` promises of the prefix it inspected.
pub proof fn lemma_max_upto(cells: Seq<Ceil>, k: int)
    requires
        0 <= k <= cells.len(),
    ensures
        max_checked_upto(cells, k) >= 0,
        forall|i: int| 0 <= i < k ==> cells[i].checked <= max_checked_upto(cells, k),
        max_checked_upto(cells, k) > 0 ==> exists|i: int|
            0 <= i < k && cells[i].checked == max_checked_upto(cells, k),
    decreases k,
{
    if k > 0 {
        lemma_max_upto(cells, k - 1);
    }
}

/// What `max_checked` promises of the whole grid.
pub proof fn lemma_max_checked(cells: Seq<Ceil>)
    ensures
        max_checked(cells) >= 0,
        forall|i: int| 0 <= i < cells.len() ==> cells[i].checked <= max_checked(cells),
        max_checked(cells) > 0 ==> exists|i: int|
            0 <= i < cells.len() && cells[i].checked == max_checked(cells),
{
    lemma_max_upto(cells, cells.len() as int);
}

/// The largest chain index is pinned by being an upper bound that is reached.
pub proof fn lemma_max_checked_is(cells: Seq<Ceil>, k: int)
    requires
        k >= 0,
        forall|i: int| 0 <= i < cells.len() ==> cells[i].checked <= k,
        k > 0 ==> exists|i: int| 0 <= i < cells.len() && cells[i].checked == k,
    ensures
        max_checked(cells) == k,
{
    lemma_max_checked(cells);
    let m = max_checked(cells);
    if m > 0 {
        let i = choose|i: int| 0 <= i < cells.len() && cells[i].checked == m;
        assert(m <= k);
    }
    if k > 0 {
        let i = choose|i: int| 0 <= i < cells.len() && cells[i].checked == k;
        assert(k <= m);
    }
}

/// Extending the chain: giving an unselected cell the next index keeps the
/// chain invariant and raises the largest index by one.
pub proof fn lemma_chain_extend(cells: Seq<Ceil>, i: int, c: Ceil)
    requires
        chain_ok(cells),
        0 <= i < cells.len(),
        cells[i].checked == 0,
        c.checked == max_checked(cells) + 1,
    ensures
        max_checked(cells.update(i, c)) == max_checked(cells) + 1,
        chain_ok(cells.update(i, c)),
{
    let m = max_checked(cells);
    let new = cells.update(i, c);
    lemma_max_checked(cells);
    assert forall|j: int| 0 <= j < new.len() implies new[j].checked <= m + 1 by {
        if j != i {
            assert(new[j] == cells[j]);
        }
    }
    assert(new[i].checked == m + 1);
    lemma_max_checked_is(new, m + 1);
    assert forall|v: int| 1 <= v implies count_val(new, v) == (if v <= m + 1 {
        1nat
    } else {
        0nat
    }) by {
        lemma_count_update(cells, i, c, v);
    }
}

/// Starting a chain: on a board with no selected cell, giving one cell the
/// index 1 establishes the chain invariant with `k == 1`.
pub proof fn lemma_chain_start(cells: Seq<Ceil>, i: int, c: Ceil)
    requires
        forall|j: int| 0 <= j < cells.len() ==> cells[j].checked <= 0,
        0 <= i < cells.len(),
        c.checked == 1,
    ensures
        max_checked(cells.update(i, c)) == 1,
        chain_ok(cells.update(i, c)),
{
    let new = cells.update(i, c);
    assert forall|j: int| 0 <= j < new.len() implies new[j].checked <= 1 by {
        if j != i {
            assert(new[j] == cells[j]);
        }
    }
    assert(new[i].checked == 1);
    lemma_max_checked_is(new, 1);
    assert forall|v: int| 1 <= v implies count_val(new, v) == (if v <= 1nat {
        1nat
    } else {
        0nat
    }) by {
        lemma_count_update(cells, i, c, v);
        lemma_count_zero(cells, v);
    }
}

/// A grid with no selected cell satisfies the chain invariant with `k == 0`.
pub proof fn lemma_chain_ok_when_none(cells: Seq<Ceil>)
    requires
        forall|i: int| 0 <= i < cells.len() ==> cells[i].checked <= 0,
    ensures
        max_checked(cells) == 0,
        chain_ok(cells),
{
    lemma_max_checked_is(cells, 0);
    assert forall|v: int| 1 <= v implies count_val(cells, v) == 0nat by {
        lemma_count_zero(cells, v);
    }
}

/// Where the falling cell from row `y` of column `x` comes to rest: the
/// topmost row such that every row between it and `y` holds a live cell
/// (one not itself decaying).
pub open spec fn stop_row(cells: Seq<Ceil>, w: int, x: int, y: int) -> int
    decreases y,
{
    if y <= 0 {
        0
    } else if cells[(y - 1) * w + x].checked >= 0 {
        stop_row(cells, w, x, y - 1)
    } else {
        y
    }
}

/// The grid after the column collapse at `(x, y)`: the live run of cells
/// right above row `y` drops down one row each, and the cell from `(x, y)`
/// rises to the top of that run. Every other cell is kept.
pub open spec fn down_cells(cells: Seq<Ceil>, w: int, x: int, y: int) -> Seq<Ceil> {
    let s = stop_row(cells, w, x, y);
    Seq::new(
        cells.len(),
        |i: int|
            if i % w == x && s <= i / w <= y {
                if i / w == s {
                    cells[y * w + x]
                } else {
                    cells[(i / w - 1) * w + x]
                }
            } else {
                cells[i]
            },
    )
}

/// What `stop_row` promises: the rows it skipped over are live, and the row
/// above it (when one exists) is decaying.
pub proof fn lemma_stop_row(cells: Seq<Ceil>, w: int, x: int, y: int)
    requires
        y >= 0,
    ensures
        0 <= stop_row(cells, w, x, y) <= y,
        forall|r: int|
            stop_row(cells, w, x, y) <= r < y ==> #[trigger] cells[r * w + x].checked >= 0,
        stop_row(cells, w, x, y) > 0 ==> cells[(stop_row(cells, w, x, y) - 1) * w + x].checked
            < 0,
    decreases y,
{
    if y > 0 && cells[(y - 1) * w + x].checked >= 0 {
        lemma_stop_row(cells, w, x, y - 1);
    }
}

/// One tick's effect on one decaying cell: a finished countdown vacates the
/// cell and collapses its column; an unfinished one advances by the pacing
/// step. Live cells are untouched.
pub open spec fn tick_cell_step(cells: Seq<Ceil>, w: int, k: int) -> Seq<Ceil> {
    let c = cells[k];
    if c.checked == -1 {
        down_cells(cells.update(k, vacated_ceil()), w, k % w, k / w)
    } else if c.checked < 0 {
        cells.update(
            k,
            Ceil {
                letter: c.letter,
                checked: (c.checked + DECAY_STEP) as i32,
                ceil_type: CeilType::Empty,
            },
        )
    } else {
        cells
    }
}

/// The grid after one tick has processed its first `n` cells, in row-major
/// order, each step acting on the grid the previous steps left behind.
pub open spec fn tick_upto(cells: Seq<Ceil>, w: int, n: int) -> Seq<Ceil>
    decreases n,
{
    if n <= 0 {
        cells
    } else {
        tick_cell_step(tick_upto(cells, w, n - 1), w, n - 1)
    }
}

/// A tick walks over live cells without touching them.
pub proof fn lemma_tick_upto_noop(cells: Seq<Ceil>, w: int, n: int)
    requires
        0 <= n <= cells.len(),
        forall|j: int| 0 <= j < n ==> cells[j].checked >= 0,
    ensures
        tick_upto(cells, w, n) == cells,
    decreases n,
{
    if n > 0 {
        lemma_tick_upto_noop(cells, w, n - 1);
    }
}

/// Once every cell still ahead of the tick is live, the rest of the tick
/// changes nothing.
pub proof fn lemma_tick_upto_frozen(cells: Seq<Ceil>, w: int, a: int, b: int)
    requires
        0 <= a <= b,
        forall|j: int| a <= j < b ==> tick_upto(cells, w, a)[j].checked >= 0,
    ensures
        tick_upto(cells, w, b) == tick_upto(cells, w, a),
    decreases b - a,
{
    if b > a {
        lemma_tick_upto_frozen(cells, w, a, b - 1);
    }
}

/// On a settled board — nothing selected, every countdown well paced — a
/// tick keeps it settled: the decays only advance and nothing ever enters
/// the selected range.
pub proof fn lemma_tick_keeps_settled(cells: Seq<Ceil>, w: int, n: int)
    requires
        w >= 1,
        0 <= n <= cells.len(),
        unselected_all(cells),
        decay_paced(cells),
    ensures
        tick_upto(cells, w, n).len() == cells.len(),
        unselected_all(tick_upto(cells, w, n)),
        decay_paced(tick_upto(cells, w, n)),
    decreases n,
{
    if n > 0 {
        lemma_tick_keeps_settled(cells, w, n - 1);
        let g = tick_upto(cells, w, n - 1);
        let k = n - 1;
        let c = g[k];
        if c.checked == -1 {
            let vac = g.update(k, vacated_ceil());
            assert(unselected_all(vac) && decay_paced(vac)) by {
                assert forall|i: int| 0 <= i < vac.len() implies (#[trigger] vac[i]).checked <= 0
                    && (vac[i].checked < 0 ==> (vac[i].checked as int) % (DECAY_STEP as int) == (
                -1int) % (DECAY_STEP as int)) by {
                    if i != k {
                        assert(vac[i] == g[i]);
                    }
                }
            }
            let x = k % w;
            let y = k / w;
            vstd::arithmetic::div_mod::lemma_fundamental_div_mod(k, w);
            vstd::arithmetic::div_mod::lemma_mod_division_less_than_divisor(k, w);
            vstd::arithmetic::div_mod::lemma_div_pos_is_pos(k, w);
            assert(y * w + x == k) by (nonlinear_arith)
                requires
                    k == w * (k / w) + (k % w),
                    x == k % w,
                    y == k / w,
            ;
            let dropped = down_cells(vac, w, x, y);
            lemma_stop_row(vac, w, x, y);
            assert forall|i: int|
                0 <= i < dropped.len() implies (#[trigger] dropped[i]).checked <= 0 && (
            dropped[i].checked < 0 ==> (dropped[i].checked as int) % (DECAY_STEP as int) == (
            -1int) % (DECAY_STEP as int)) by {
                let s = stop_row(vac, w, x, y);
                vstd::arithmetic::div_mod::lemma_fundamental_div_mod(i, w);
                vstd::arithmetic::div_mod::lemma_div_pos_is_pos(i, w);
                if i % w == x && s <= i / w <= y {
                    if i / w == s {
                        assert(0 <= y * w + x < vac.len());
                        assert(dropped[i] == vac[y * w + x]);
                    } else {
                        assert(0 <= (i / w - 1) * w + x < vac.len()) by (nonlinear_arith)
                            requires
                                w >= 1,
                                0 <= i < vac.len(),
                                0 <= x < w,
                                i % w == x,
                                i / w >= 1,
                                i == w * (i / w) + i % w,
                        ;
                        assert(dropped[i] == vac[(i / w - 1) * w + x]);
                    }
                } else {
                    assert(dropped[i] == vac[i]);
                }
            }
        } else if c.checked < 0 {
            let stepped = tick_cell_step(g, w, k);
            assert forall|i: int|
                0 <= i < stepped.len() implies (#[trigger] stepped[i]).checked <= 0 && (
            stepped[i].checked < 0 ==> (stepped[i].checked as int) % (DECAY_STEP as int) == (
            -1int) % (DECAY_STEP as int)) by {
                if i == k {
                    assert((c.checked as int) % (DECAY_STEP as int) == (-1int) % (
                    DECAY_STEP as int));
                    assert(c.checked as int <= -1 - DECAY_STEP) by (nonlinear_arith)
                        requires
                            c.checked < -1,
                            (c.checked as int) % (DECAY_STEP as int) == (-1int) % (
                            DECAY_STEP as int),
                            DECAY_STEP == 14,
                    ;
                    assert((c.checked as int + DECAY_STEP) % (DECAY_STEP as int) == (-1int) % (
                    DECAY_STEP as int)) by (nonlinear_arith)
                        requires
                            (c.checked as int) % (DECAY_STEP as int) == (-1int) % (
                            DECAY_STEP as int),
                            DECAY_STEP == 14,
                    ;
                } else {
                    assert(stepped[i] == g[i]);
                }
            }
        }
    }
}

} // verus!
