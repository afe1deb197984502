//! The board: grid of cells, chain-selection state machine, scoring with
//! bonus lines, and the per-tick clear/gravity animation.

use vstd::prelude::*;

use crate::cell::{blank_ceil, Ceil, CeilType, Direction};
use crate::dict;
use crate::gen;
use crate::grid;
use crate::settings::{
    DECAY_START, DECAY_STEP, SCORES_FOR_BONUS_AND_CHECKED, SCORES_FOR_BONUS_LINE,
    SCORES_FOR_CHECKED,
};

verus! {

/// The mathematical model of a board: what every contract speaks of.
#[verifier::ext_equal]
pub ghost struct FieldModel {
    pub width: int,
    pub height: int,
    /// The grid in row-major order: the cell at column `x`, row `y` sits at
    /// index `y * width + x`.
    pub cells: Seq<Ceil>,
    pub scores: int,
    pub longest: Seq<char>,
    pub ready: bool,
    /// The word list, one candidate entry per element.
    pub dict: Seq<Seq<char>>,
}

impl FieldModel {
    /// How many cells a well-formed grid holds.
    pub open spec fn size(self) -> int {
        if self.width <= 0 || self.height <= 0 {
            0
        } else {
            self.width * self.height
        }
    }

    pub open spec fn in_bounds(self, x: int, y: int) -> bool {
        0 <= x < self.width && 0 <= y < self.height
    }

    /// Row-major index of a cell.
    pub open spec fn idx(self, x: int, y: int) -> int {
        y * self.width + x
    }

    pub open spec fn at(self, x: int, y: int) -> Ceil {
        self.cells[self.idx(x, y)]
    }

    pub open spec fn wf(self) -> bool {
        &&& self.width <= i32::MAX
        &&& self.height <= i32::MAX
        &&& i32::MIN <= self.scores <= i32::MAX
        &&& self.cells.len() == self.size()
    }

    /// What `is_checked` answers: the chain index at in-bounds coordinates,
    /// `-1` outside the grid.
    pub open spec fn is_checked_spec(self, x: int, y: int) -> int {
        if self.in_bounds(x, y) {
            self.at(x, y).checked as int
        } else {
            -1
        }
    }

    /// A decay animation is in flight somewhere on the board.
    pub open spec fn blocked(self) -> bool {
        exists|x: int, y: int| self.in_bounds(x, y) && self.at(x, y).checked < 0
    }

    /// The largest chain index on the board, zero when nothing is selected.
    pub open spec fn max_checked(self) -> int {
        grid::max_checked(self.cells)
    }

    /// The chain invariant: positive chain indices are exactly `1..=k`.
    pub open spec fn chain_ok(self) -> bool {
        grid::chain_ok(self.cells)
    }

    /// The word the current chain spells, in board letters.
    pub open spec fn chain_word_now(self) -> Seq<char> {
        grid::chain_word(self.cells, self.max_checked())
    }

    /// Whether the current chain word, lowercased, is in the word list.
    pub open spec fn word_ok(self) -> bool {
        dict::word_in_list(self.dict, dict::lower_of(self.chain_word_now()))
    }

    /// Whether `(x, y)` may serve as a neighbour target in bonus detection:
    /// row 0 and column 0 are excluded, an asymmetry kept deliberately.
    pub open spec fn valid_target(self, x: int, y: int) -> bool {
        x > 0 && y > 0 && x < self.width && y < self.height
    }

    /// Whether the neighbour of `(x, y)` at the given offset is a selected
    /// cell that bonus detection accepts.
    pub open spec fn neighbor_selected(self, x: int, y: int, ox: int, oy: int) -> bool {
        self.valid_target(x + ox, y + oy) && self.at(x + ox, y + oy).checked > 0
    }

    /// An active bonus cell: a bonus cell with a selected cell on one of the
    /// seven neighbour offsets the scan probes. The down-right diagonal is
    /// deliberately absent, an asymmetry kept from the scan's offset list.
    pub open spec fn is_bonus_spec(self, x: int, y: int) -> bool {
        &&& self.at(x, y).ceil_type == CeilType::Bonus
        &&& {
            ||| self.neighbor_selected(x, y, -1, -1)
            ||| self.neighbor_selected(x, y, 0, -1)
            ||| self.neighbor_selected(x, y, 1, -1)
            ||| self.neighbor_selected(x, y, -1, 0)
            ||| self.neighbor_selected(x, y, 1, 0)
            ||| self.neighbor_selected(x, y, -1, 1)
            ||| self.neighbor_selected(x, y, 0, 1)
        }
    }

    /// An active bonus cell exists somewhere on the board.
    pub open spec fn any_bonus(self) -> bool {
        exists|x: int, y: int| self.in_bounds(x, y) && self.is_bonus_spec(x, y)
    }

    /// Row `y` is a bonus line: it holds an active bonus cell.
    pub open spec fn row_bonus(self, y: int) -> bool {
        exists|x: int| self.in_bounds(x, y) && self.is_bonus_spec(x, y)
    }

    /// Every decaying cell's countdown is one the pacing constants produce,
    /// so stepping it by `DECAY_STEP` never overshoots past `-1`.
    pub open spec fn decay_ok(self) -> bool {
        grid::decay_paced(self.cells)
    }
}

/// Row-major order on coordinates: whether `(x1, y1)` is scanned strictly
/// before `(x2, y2)`.
pub open spec fn rm_before(x1: int, y1: int, x2: int, y2: int) -> bool {
    y1 < y2 || (y1 == y2 && x1 < x2)
}

/// What `deselect` does to one cell: an unselected or decaying cell is kept,
/// a selected one returns to the unselected state.
pub open spec fn deselect_cell(c: Ceil) -> Ceil {
    if c.checked > 0 {
        Ceil { letter: c.letter, checked: 0, ceil_type: c.ceil_type }
    } else {
        c
    }
}

/// Flat grid indices decompose into in-bounds coordinates.
pub proof fn lemma_flat_to_coords(m: FieldModel, i: int)
    by (nonlinear_arith)
    requires
        m.wf(),
        0 <= i < m.cells.len(),
    ensures
        m.in_bounds(i % m.width, i / m.width),
        m.idx(i % m.width, i / m.width) == i,
{
}

/// A row-major index is inside the grid exactly when its coordinates are.
pub proof fn lemma_idx_bounds(m: FieldModel, x: int, y: int)
    by (nonlinear_arith)
    requires
        m.in_bounds(x, y),
    ensures
        0 <= m.idx(x, y) < m.size(),
        m.idx(x, y) / m.width == y,
        m.idx(x, y) % m.width == x,
{
}

/// Distinct coordinates sit at distinct row-major indices.
pub proof fn lemma_idx_distinct(m: FieldModel, x1: int, y1: int, x2: int, y2: int)
    by (nonlinear_arith)
    requires
        m.in_bounds(x1, y1),
        m.in_bounds(x2, y2),
        !(x1 == x2 && y1 == y2),
    ensures
        m.idx(x1, y1) != m.idx(x2, y2),
{
}

/// Chebyshev adjacency as the selection scan tests it: the coordinates
/// differ by exactly one in at least one axis and by at most one in both.
pub open spec fn cheb_adjacent(ax: int, ay: int, bx: int, by: int) -> bool {
    &&& (ax - bx == 1 || bx - ax == 1 || ay - by == 1 || by - ay == 1)
    &&& -1 <= ax - bx <= 1
    &&& -1 <= ay - by <= 1
}

/// `(mx, my)` is the first cell in row-major order that carries the largest
/// chain index.
pub open spec fn first_max_at(pre: FieldModel, mx: int, my: int) -> bool {
    &&& pre.in_bounds(mx, my)
    &&& pre.at(mx, my).checked == pre.max_checked()
    &&& forall|x: int, y: int|
        pre.in_bounds(x, y) && rm_before(x, y, mx, my) ==> pre.at(x, y).checked
            < pre.max_checked()
}

/// When a click extends the chain: the target is unselected and adjacent to
/// the chain's end. With no chain the end's scan position is `(-1, -1)`,
/// which only the corner `(0, 0)` is adjacent to; that click starts a chain.
pub open spec fn extend_cond(pre: FieldModel, x: int, y: int) -> bool {
    &&& pre.at(x, y).checked == 0
    &&& if pre.max_checked() > 0 {
        exists|mx: int, my: int| first_max_at(pre, mx, my) && cheb_adjacent(mx, my, x, y)
    } else {
        x == 0 && y == 0
    }
}

/// When a click commits the chain: the target is the chain's own end and the
/// chain word, lowercased, is in the word list.
pub open spec fn commit_cond(pre: FieldModel, x: int, y: int) -> bool {
    &&& pre.max_checked() > 0
    &&& first_max_at(pre, x, y)
    &&& dict::word_in_list(pre.dict, dict::lower_of(pre.chain_word_now()))
}

/// The board after a mutation of the grid alone, with the cached word flag
/// recomputed from the new chain.
pub open spec fn after_cells(pre: FieldModel, cells: Seq<Ceil>) -> FieldModel {
    let mid = FieldModel { cells, ..pre };
    FieldModel { ready: mid.word_ok(), ..mid }
}

/// What a commit does to one cell: selected cells and cells on a bonus line
/// are vacated and start decaying; everything else is kept.
pub open spec fn commit_cell(c: Ceil, on_line: bool) -> Ceil {
    if c.checked > 0 || on_line {
        Ceil { letter: c.letter, checked: DECAY_START, ceil_type: CeilType::Empty }
    } else {
        c
    }
}

/// The whole grid after a commit.
pub open spec fn commit_cells(pre: FieldModel) -> Seq<Ceil> {
    Seq::new(pre.cells.len(), |i: int| commit_cell(pre.cells[i], pre.row_bonus(i / pre.width)))
}

/// The points one cell is worth at commit time.
pub open spec fn cell_award(c: Ceil, any_line: bool, on_line: bool) -> int {
    if c.checked > 0 || on_line {
        if c.checked > 0 && any_line {
            SCORES_FOR_BONUS_AND_CHECKED as int
        } else if c.checked <= 0 && on_line {
            SCORES_FOR_BONUS_LINE as int
        } else {
            SCORES_FOR_CHECKED as int
        }
    } else {
        0
    }
}

/// The points the first `k` cells are worth at commit time, summed in
/// row-major order.
pub open spec fn commit_award(pre: FieldModel, k: int) -> int
    decreases k,
{
    if k <= 0 {
        0
    } else {
        commit_award(pre, k - 1) + cell_award(
            pre.cells[k - 1],
            pre.any_bonus(),
            pre.row_bonus((k - 1) / pre.width),
        )
    }
}

/// An integer clamped into the `i32` range: how the running score absorbs
/// an award that would overflow it.
pub open spec fn clip_i32(v: int) -> int {
    if v > i32::MAX {
        i32::MAX as int
    } else if v < i32::MIN {
        i32::MIN as int
    } else {
        v
    }
}

/// The whole board after a commit: cells vacated, the doubled award added to
/// the score, the longest word updated when the committed word is strictly
/// longer, and the cached word flag recomputed.
pub open spec fn after_commit(pre: FieldModel) -> FieldModel {
    let cells = commit_cells(pre);
    let total = commit_award(pre, pre.cells.len() as int);
    let word = pre.chain_word_now();
    let longest = if word.len() > pre.longest.len() {
        word
    } else {
        pre.longest
    };
    let mid = FieldModel { cells, scores: clip_i32(pre.scores + 2 * total), longest, ..pre };
    FieldModel { ready: mid.word_ok(), ..mid }
}

/// What one `try_check` call does, for every click and board.
pub open spec fn select_rel(pre: FieldModel, post: FieldModel, x: int, y: int) -> bool {
    if !(pre.in_bounds(x, y) && pre.at(x, y).ceil_type == CeilType::Active) {
        post == pre
    } else if extend_cond(pre, x, y) {
        post == after_cells(
            pre,
            pre.cells.update(
                pre.idx(x, y),
                Ceil {
                    letter: pre.at(x, y).letter,
                    checked: (pre.max_checked() + 1) as i32,
                    ceil_type: CeilType::Active,
                },
            ),
        )
    } else if pre.max_checked() == 0 {
        post == after_cells(
            pre,
            pre.cells.update(
                pre.idx(x, y),
                Ceil { letter: pre.at(x, y).letter, checked: 1, ceil_type: CeilType::Active },
            ),
        )
    } else if commit_cond(pre, x, y) {
        post == after_commit(pre)
    } else {
        post == after_cells(pre, pre.cells)
    }
}

/// A well-formed grid holds fewer cells than any award arithmetic can
/// overflow on: its size is a product of two `i32` values.
pub proof fn lemma_size_bound(m: FieldModel)
    by (nonlinear_arith)
    requires
        m.wf(),
    ensures
        m.cells.len() <= 0x4000_0000_0000_0000,
{
}

/// The commit award over a prefix is non-negative and at most 100 points a
/// cell.
pub proof fn lemma_commit_award_bounds(m: FieldModel, k: int)
    ensures
        k <= 0 ==> commit_award(m, k) == 0,
        k >= 0 ==> 0 <= commit_award(m, k) <= 100 * k,
    decreases k,
{
    if k > 0 {
        lemma_commit_award_bounds(m, k - 1);
    }
}

/// Which compass direction the neighbour of `(x, y)` carrying chain index
/// `v` lies in, probing the eight neighbours in the renderer's fixed order.
pub open spec fn dir_probe_spec(m: FieldModel, x: int, y: int, v: int) -> Direction {
    if m.is_checked_spec(x + 1, y) == v {
        Direction::LeftToRight
    } else if m.is_checked_spec(x - 1, y) == v {
        Direction::RightToLeft
    } else if m.is_checked_spec(x, y - 1) == v {
        Direction::DownToUp
    } else if m.is_checked_spec(x, y + 1) == v {
        Direction::UpToDown
    } else if m.is_checked_spec(x - 1, y + 1) == v {
        Direction::UpRightToDownLeft
    } else if m.is_checked_spec(x - 1, y - 1) == v {
        Direction::DownRightToUpLeft
    } else if m.is_checked_spec(x + 1, y + 1) == v {
        Direction::UpLeftToDownRight
    } else if m.is_checked_spec(x + 1, y - 1) == v {
        Direction::DownLeftToUpRight
    } else {
        Direction::Nowhere
    }
}

/// What `get_direction` answers: the direction towards the next chain link.
pub open spec fn direction_spec(m: FieldModel, x: int, y: int) -> Direction {
    if m.is_checked_spec(x, y) > 0 {
        dir_probe_spec(m, x, y, m.is_checked_spec(x, y) + 1)
    } else {
        Direction::Nowhere
    }
}

/// What `get_before_direction` answers: the direction towards the previous
/// chain link.
pub open spec fn before_direction_spec(m: FieldModel, x: int, y: int) -> Direction {
    if m.is_checked_spec(x, y) > 1 {
        dir_probe_spec(m, x, y, m.is_checked_spec(x, y) - 1)
    } else {
        Direction::Nowhere
    }
}

/// The first row-major cell with the largest chain index is unique.
pub proof fn lemma_first_max_unique(pre: FieldModel, ax: int, ay: int, bx: int, by: int)
    requires
        first_max_at(pre, ax, ay),
        first_max_at(pre, bx, by),
    ensures
        ax == bx && ay == by,
{
    if rm_before(ax, ay, bx, by) {
        assert(pre.at(ax, ay).checked < pre.max_checked());
    } else if rm_before(bx, by, ax, ay) {
        assert(pre.at(bx, by).checked < pre.max_checked());
    }
}

/// Law: every click keeps the chain invariant — a start, an extension, a
/// commit and an ignored click alike leave the positive chain indices as
/// exactly `1..=k'` for some `k'`. The ceiling on the largest index is a
/// machine limit: an extension computes the next `i32` index.
pub proof fn lemma_select_keeps_chain(pre: FieldModel, post: FieldModel, x: int, y: int)
    requires
        pre.wf(),
        pre.chain_ok(),
        pre.max_checked() < i32::MAX,
        select_rel(pre, post, x, y),
    ensures
        post.chain_ok(),
{
    let m = pre.max_checked();
    grid::lemma_max_checked(pre.cells);
    if pre.in_bounds(x, y) && pre.at(x, y).ceil_type == CeilType::Active {
        lemma_idx_bounds(pre, x, y);
        let target = pre.idx(x, y);
        if extend_cond(pre, x, y) {
            let c = Ceil {
                letter: pre.at(x, y).letter,
                checked: (m + 1) as i32,
                ceil_type: CeilType::Active,
            };
            assert(post.cells == pre.cells.update(target, c));
            grid::lemma_chain_extend(pre.cells, target, c);
        } else if m == 0 {
            let c = Ceil { letter: pre.at(x, y).letter, checked: 1i32, ceil_type: CeilType::Active };
            assert(post.cells == pre.cells.update(target, c));
            grid::lemma_chain_start(pre.cells, target, c);
        } else if commit_cond(pre, x, y) {
            assert(post.cells == commit_cells(pre));
            assert forall|i: int| 0 <= i < post.cells.len() implies
                post.cells[i].checked <= 0 by {
                assert(post.cells[i] == commit_cell(pre.cells[i], pre.row_bonus(i / pre.width)));
            }
            grid::lemma_chain_ok_when_none(post.cells);
        } else {
            assert(post.cells == pre.cells);
        }
    }
}

/// With no active bonus cell anywhere, a commit's award is the selected-cell
/// score for each selected cell among the first `k`, and nothing else.
pub proof fn lemma_commit_award_no_bonus(pre: FieldModel, k: int)
    requires
        pre.wf(),
        !pre.any_bonus(),
        0 <= k <= pre.cells.len(),
    ensures
        commit_award(pre, k) == (SCORES_FOR_CHECKED as int) * (grid::count_pos(
            pre.cells.subrange(0, k),
        ) as int),
    decreases k,
{
    if k > 0 {
        lemma_commit_award_no_bonus(pre, k - 1);
        assert(pre.cells.subrange(0, k).drop_last() =~= pre.cells.subrange(0, k - 1));
        assert(pre.cells.subrange(0, k).last() == pre.cells[k - 1]);
        if pre.row_bonus((k - 1) / pre.width) {
            let row = (k - 1) / pre.width;
            let a = choose|a: int| pre.in_bounds(a, row) && #[trigger] pre.is_bonus_spec(a, row);
            assert(pre.in_bounds(a, row) && pre.is_bonus_spec(a, row));
            assert(false);
        }
    } else {
        assert(pre.cells.subrange(0, 0) =~= Seq::<Ceil>::empty());
    }
}

/// The board. It owns the grid exclusively; all mutating operations take
/// `&mut self`, so every accessor is trivially free of side effects.
pub struct Field {
    scores: i32,
    is_word_ready: bool,
    most_lengthy_word: String,
    height: i32,
    width: i32,
    /// Row-major grid of `width * height` cells.
    data: Vec<Ceil>,
    /// The immutable word list supplied at construction.
    words: Vec<String>,
}

impl View for Field {
    type V = FieldModel;

    closed spec fn view(&self) -> FieldModel {
        FieldModel {
            width: self.width as int,
            height: self.height as int,
            cells: self.data@,
            scores: self.scores as int,
            longest: self.most_lengthy_word@,
            ready: self.is_word_ready,
            dict: self.words.deep_view(),
        }
    }
}

impl Field {
    /// A fresh board of blank unselected cells, an empty word list, zero
    /// score and no longest word.
    pub fn new(width: i32, height: i32) -> (r: Field)
        requires
            width <= 0 || height <= 0 || width * height <= usize::MAX,
        ensures
            r@.wf(),
            r@.width == width,
            r@.height == height,
            r@.scores == 0,
            r@.longest == Seq::<char>::empty(),
            !r@.ready,
            r@.dict == Seq::<Seq<char>>::empty(),
            forall|i: int| 0 <= i < r@.cells.len() ==> r@.cells[i] == blank_ceil(),
            r@.max_checked() == 0,
            r@.chain_ok(),
            r@.decay_ok(),
    {
        Self::with_words(width, height, Vec::new())
    }

    /// A fresh board that will validate chain words against `words`.
    pub fn with_words(width: i32, height: i32, words: Vec<String>) -> (r: Field)
        requires
            width <= 0 || height <= 0 || width * height <= usize::MAX,
        ensures
            r@.wf(),
            r@.width == width,
            r@.height == height,
            r@.scores == 0,
            r@.longest == Seq::<char>::empty(),
            !r@.ready,
            r@.dict == words.deep_view(),
            forall|i: int| 0 <= i < r@.cells.len() ==> r@.cells[i] == blank_ceil(),
            r@.max_checked() == 0,
            r@.chain_ok(),
            r@.decay_ok(),
    {
        let mut data: Vec<Ceil> = Vec::new();
        if width > 0 && height > 0 {
            let total: usize = (width as usize) * (height as usize);
            let mut k: usize = 0;
            while k < total
                invariant
                    k <= total,
                    data@.len() == k,
                    forall|i: int| 0 <= i < k ==> data@[i] == blank_ceil(),
                decreases total - k,
            {
                data.push(Ceil { letter: ' ', checked: 0, ceil_type: CeilType::Active });
                k = k + 1;
            }
        }
        let r = Field {
            scores: 0,
            is_word_ready: false,
            most_lengthy_word: String::new(),
            height,
            width,
            data,
            words,
        };
        proof {
            assert forall|i: int| 0 <= i < r@.cells.len() implies r@.cells[i].checked <= 0 by {}
            grid::lemma_chain_ok_when_none(r@.cells);
        }
        r
    }

    pub fn get_width(&self) -> (r: i32)
        ensures
            r == self@.width,
    {
        self.width
    }

    pub fn get_height(&self) -> (r: i32)
        ensures
            r == self@.height,
    {
        self.height
    }

    pub fn get_scores(&self) -> (r: i32)
        ensures
            r == self@.scores,
    {
        self.scores
    }

    pub fn get_longest_word(&self) -> (r: String)
        ensures
            r@ == self@.longest,
    {
        self.most_lengthy_word.clone()
    }

    pub fn set_longest_word(&mut self, word: String)
        ensures
            final(self)@ == (FieldModel { longest: word@, ..old(self)@ }),
    {
        self.most_lengthy_word = word;
    }

    pub fn set_scores(&mut self, scores: i32)
        ensures
            final(self)@ == (FieldModel { scores: scores as int, ..old(self)@ }),
    {
        self.scores = scores;
    }

    /// The cached result of validating the current chain word.
    pub fn is_word(&self) -> (r: bool)
        ensures
            r == self@.ready,
    {
        self.is_word_ready
    }

    /// Whether `(x, y)` may serve as a neighbour target in bonus detection.
    /// Row 0 and column 0 are excluded, an asymmetry kept deliberately.
    pub fn is_valid(&self, x: i32, y: i32) -> (r: bool)
        ensures
            r == (x > 0 && y > 0 && x < self@.width && y < self@.height),
    {
        x > 0 && y > 0 && x < self.width && y < self.height
    }

    /// Row-major position of an in-bounds cell inside the flat grid vector.
    fn cell_index(&self, x: i32, y: i32) -> (i: usize)
        requires
            self@.wf(),
            self@.in_bounds(x as int, y as int),
        ensures
            i == self@.idx(x as int, y as int),
            i < self@.cells.len(),
    {
        proof {
            lemma_idx_bounds(self@, x as int, y as int);
        }
        let n: usize = self.data.len();
        (y as usize) * (self.width as usize) + (x as usize)
    }

    /// Reads the cell at in-bounds coordinates.
    pub fn get(&self, x: i32, y: i32) -> (r: Ceil)
        requires
            self@.wf(),
            self@.in_bounds(x as int, y as int),
        ensures
            r == self@.at(x as int, y as int),
    {
        let i: usize = self.cell_index(x, y);
        self.data[i]
    }

    /// Overwrites the cell at in-bounds coordinates.
    pub fn set(&mut self, x: i32, y: i32, ceil: Ceil)
        requires
            old(self)@.wf(),
            old(self)@.in_bounds(x as int, y as int),
        ensures
            final(self)@ == (FieldModel {
                cells: old(self)@.cells.update(old(self)@.idx(x as int, y as int), ceil),
                ..old(self)@
            }),
            final(self)@.wf(),
    {
        let i: usize = self.cell_index(x, y);
        self.data[i] = ceil;
    }

    /// The chain index at `(x, y)`, or `-1` for out-of-grid coordinates.
    pub fn is_checked(&self, x: i32, y: i32) -> (r: i32)
        requires
            self@.wf(),
        ensures
            r == self@.is_checked_spec(x as int, y as int),
    {
        if x < 0 || y < 0 || x >= self.width || y >= self.height {
            return -1;
        }
        self.get(x, y).checked
    }

    /// Whether a decay animation is in flight; the host must suppress
    /// `try_check` and `deselect` while this holds.
    pub fn is_blocked(&self) -> (r: bool)
        requires
            self@.wf(),
        ensures
            r == self@.blocked(),
    {
        let mut i: i32 = 0;
        while i < self.height
            invariant
                self@.wf(),
                0 <= i,
                forall|x: int, y: int|
                    self@.in_bounds(x, y) && y < i ==> self@.at(x, y).checked >= 0,
            decreases self@.height - i,
        {
            let mut j: i32 = 0;
            while j < self.width
                invariant
                    self@.wf(),
                    0 <= i < self@.height,
                    0 <= j,
                    forall|x: int, y: int|
                        self@.in_bounds(x, y) && y < i ==> self@.at(x, y).checked >= 0,
                    forall|x: int| 0 <= x < j ==> self@.at(x, i as int).checked >= 0,
                decreases self@.width - j,
            {
                if self.get(j, i).checked < 0 {
                    proof {
                        assert(self@.in_bounds(j as int, i as int)
                            && self@.at(j as int, i as int).checked < 0);
                    }
                    return true;
                }
                j = j + 1;
            }
            i = i + 1;
        }
        false
    }

    /// The largest chain index together with the coordinates of the first
    /// cell in row-major order that carries it; `(0, -1, -1)` when no cell
    /// is selected.
    pub fn find_max(&self) -> (r: (i32, i32, i32))
        requires
            self@.wf(),
        ensures
            r.0 == self@.max_checked(),
            r.0 == 0 ==> r.1 == -1 && r.2 == -1,
            r.0 > 0 ==> self@.in_bounds(r.1 as int, r.2 as int)
                && self@.at(r.1 as int, r.2 as int).checked == r.0
                && (forall|x: int, y: int|
                    self@.in_bounds(x, y) && rm_before(x, y, r.1 as int, r.2 as int)
                        ==> self@.at(x, y).checked < r.0),
    {
        let mut max: i32 = 0;
        let mut max_x: i32 = -1;
        let mut max_y: i32 = -1;

        let mut i: i32 = 0;
        while i < self.height
            invariant
                self@.wf(),
                0 <= i,
                max >= 0,
                forall|x: int, y: int|
                    self@.in_bounds(x, y) && y < i ==> self@.at(x, y).checked <= max,
                max == 0 ==> max_x == -1 && max_y == -1,
                max > 0 ==> self@.in_bounds(max_x as int, max_y as int)
                    && self@.at(max_x as int, max_y as int).checked == max
                    && rm_before(max_x as int, max_y as int, 0, i as int)
                    && (forall|x: int, y: int|
                        self@.in_bounds(x, y) && rm_before(x, y, max_x as int, max_y as int)
                            ==> self@.at(x, y).checked < max),
            decreases self@.height - i,
        {
            let mut j: i32 = 0;
            while j < self.width
                invariant
                    self@.wf(),
                    0 <= i < self@.height,
                    0 <= j,
                    max >= 0,
                    forall|x: int, y: int|
                        self@.in_bounds(x, y) && (y < i || (y == i && x < j))
                            ==> self@.at(x, y).checked <= max,
                    max == 0 ==> max_x == -1 && max_y == -1,
                    max > 0 ==> self@.in_bounds(max_x as int, max_y as int)
                        && self@.at(max_x as int, max_y as int).checked == max
                        && rm_before(max_x as int, max_y as int, j as int, i as int)
                        && (forall|x: int, y: int|
                            self@.in_bounds(x, y) && rm_before(x, y, max_x as int, max_y as int)
                                ==> self@.at(x, y).checked < max),
                decreases self@.width - j,
            {
                if max < self.get(j, i).checked {
                    max = self.get(j, i).checked;
                    max_x = j;
                    max_y = i;
                }
                j = j + 1;
            }
            i = i + 1;
        }
        proof {
            assert forall|k: int| 0 <= k < self@.cells.len() implies
                self@.cells[k].checked <= max by {
                lemma_flat_to_coords(self@, k);
            }
            if max > 0 {
                lemma_idx_bounds(self@, max_x as int, max_y as int);
            }
            grid::lemma_max_checked_is(self@.cells, max as int);
        }
        (max, max_x, max_y)
    }

    /// The letter of the first cell in row-major order whose chain index is
    /// `val`, or `'x'` when no cell carries it.
    pub fn get_at_value(&self, val: i32) -> (r: char)
        requires
            self@.wf(),
        ensures
            r == grid::letter_at_value(self@.cells, val as int),
    {
        let n: usize = self.data.len();
        let mut k: usize = 0;
        while k < n
            invariant
                n == self@.cells.len(),
                0 <= k <= n,
                grid::first_idx_with(self@.cells, val as int, 0)
                    == grid::first_idx_with(self@.cells, val as int, k as int),
            decreases n - k,
        {
            if self.data[k].checked == val {
                return self.data[k].letter;
            }
            k = k + 1;
        }
        'x'
    }

    /// The word the current chain spells, reading chain indices `1..=max`.
    pub fn get_word(&self) -> (r: String)
        requires
            self@.wf(),
        ensures
            r@ == self@.chain_word_now(),
    {
        let m = self.find_max();
        proof {
            grid::lemma_max_checked(self@.cells);
        }
        let mut value = String::new();
        let mut v: i64 = 1;
        while v <= m.0 as i64
            invariant
                self@.wf(),
                m.0 == self@.max_checked(),
                m.0 >= 0,
                1 <= v <= m.0 + 1,
                value@ == grid::chain_word(self@.cells, v - 1),
            decreases m.0 + 1 - v,
        {
            value.push(self.get_at_value(v as i32));
            v = v + 1;
        }
        value
    }

    /// Checks a candidate word against the word list, applying the entry
    /// normalization and the two phonetic substitutions.
    pub fn check_word(&self, word: String) -> (r: bool)
        ensures
            r == dict::word_in_list(self@.dict, word@),
    {
        dict::word_in_list_exec(&self.words, &word)
    }

    /// Cancels the whole chain: every selected cell returns to the
    /// unselected state. Decaying cells, cell kinds, letters, the score and
    /// the longest word are untouched.
    pub fn deselect(&mut self)
        requires
            old(self)@.wf(),
        ensures
            final(self)@ == (FieldModel {
                cells: old(self)@.cells.map_values(|c: Ceil| deselect_cell(c)),
                ..old(self)@
            }),
            final(self)@.wf(),
            final(self)@.max_checked() == 0,
            final(self)@.chain_ok(),
            old(self)@.decay_ok() ==> final(self)@.decay_ok(),
    {
        let ghost orig: Seq<Ceil> = self.data@;
        let n: usize = self.data.len();
        let mut k: usize = 0;
        while k < n
            invariant
                n == orig.len(),
                self@.cells.len() == n,
                0 <= k <= n,
                self@ == (FieldModel { cells: self@.cells, ..old(self)@ }),
                old(self)@.cells == orig,
                forall|m: int| 0 <= m < k ==> self@.cells[m] == deselect_cell(orig[m]),
                forall|m: int| k <= m < n ==> self@.cells[m] == orig[m],
            decreases n - k,
        {
            let c = self.data[k];
            if c.checked > 0 {
                self.data[k] = Ceil { letter: c.letter, checked: 0, ceil_type: c.ceil_type };
            }
            k = k + 1;
        }
        proof {
            assert(self@.cells =~= orig.map_values(|c: Ceil| deselect_cell(c)));
            assert forall|m: int| 0 <= m < self@.cells.len() implies
                self@.cells[m].checked <= 0 by {
                assert(self@.cells[m] == deselect_cell(orig[m]));
            }
            grid::lemma_chain_ok_when_none(self@.cells);
            if old(self)@.decay_ok() {
                assert forall|m: int|
                    0 <= m < self@.cells.len() && (#[trigger] self@.cells[m]).checked < 0 implies (
                self@.cells[m].checked as int) % (DECAY_STEP as int) == (-1int) % (
                DECAY_STEP as int) by {
                    assert(self@.cells[m] == deselect_cell(orig[m]));
                }
            }
        }
    }

    /// Clears the board for a commit: every selected cell and every cell on
    /// a bonus line is vacated and starts decaying; returns the points they
    /// are worth, before doubling.
    fn commit_clear(&mut self, rows_bonus: &Vec<bool>, any_line: bool) -> (award: i128)
        requires
            old(self)@.wf(),
            old(self)@.height >= 0,
            rows_bonus@.len() == old(self)@.height,
            forall|r: int| 0 <= r < old(self)@.height ==> rows_bonus@[r] == old(self)@.row_bonus(r),
            any_line == old(self)@.any_bonus(),
        ensures
            final(self)@ == (FieldModel { cells: commit_cells(old(self)@), ..old(self)@ }),
            final(self)@.wf(),
            award == commit_award(old(self)@, old(self)@.cells.len() as int),
            0 <= award <= old(self)@.cells.len() * 100,
    {
        let ghost pre = old(self)@;
        proof {
            lemma_size_bound(pre);
            lemma_commit_award_bounds(pre, pre.cells.len() as int);
        }
        let mut append: i128 = 0;
        let mut yy: i32 = 0;
        while yy < self.height
            invariant
                pre.wf(),
                pre.height >= 0,
                pre.cells.len() <= 0x4000_0000_0000_0000,
                rows_bonus@.len() == pre.height,
                forall|r: int| 0 <= r < pre.height ==> rows_bonus@[r] == pre.row_bonus(r),
                any_line == pre.any_bonus(),
                0 <= yy <= pre.height,
                self@ == (FieldModel { cells: self@.cells, ..pre }),
                self@.cells.len() == pre.cells.len(),
                forall|k: int|
                    0 <= k < yy * pre.width ==> self@.cells[k] == commit_cell(
                        pre.cells[k],
                        pre.row_bonus(k / pre.width),
                    ),
                forall|k: int|
                    0 <= k && yy * pre.width <= k && k < pre.cells.len() ==> self@.cells[k]
                        == pre.cells[k],
                append == commit_award(pre, yy * pre.width),
                0 <= append <= 100 * pre.cells.len(),
            decreases pre.height - yy,
        {
            let mut xx: i32 = 0;
            while xx < self.width
                invariant
                    pre.wf(),
                    pre.cells.len() <= 0x4000_0000_0000_0000,
                    rows_bonus@.len() == pre.height,
                    forall|r: int| 0 <= r < pre.height ==> rows_bonus@[r] == pre.row_bonus(r),
                    any_line == pre.any_bonus(),
                    0 <= yy < pre.height,
                    0 <= xx,
                    xx <= pre.width || pre.width <= 0,
                    pre.width <= 0 ==> xx == 0,
                    self@ == (FieldModel { cells: self@.cells, ..pre }),
                    self@.cells.len() == pre.cells.len(),
                    forall|k: int|
                        0 <= k < yy * pre.width + xx ==> self@.cells[k] == commit_cell(
                            pre.cells[k],
                            pre.row_bonus(k / pre.width),
                        ),
                    forall|k: int|
                        0 <= k && yy * pre.width + xx <= k && k < pre.cells.len()
                            ==> self@.cells[k] == pre.cells[k],
                    append == commit_award(pre, yy * pre.width + xx),
                    0 <= append <= 100 * pre.cells.len(),
                decreases pre.width - xx,
            {
                let ghost k: int = yy * pre.width + xx;
                proof {
                    lemma_idx_bounds(pre, xx as int, yy as int);
                    assert(self@.cells[k] == pre.cells[k]);
                    lemma_commit_award_bounds(pre, k + 1);
                    lemma_commit_award_bounds(pre, k);
                }
                let c = self.get(xx, yy);
                let is_ch = c.checked > 0;
                let is_line = rows_bonus[yy as usize];
                if is_ch || is_line {
                    let add: i128 = if is_ch && any_line {
                        SCORES_FOR_BONUS_AND_CHECKED as i128
                    } else if !is_ch && is_line {
                        SCORES_FOR_BONUS_LINE as i128
                    } else {
                        SCORES_FOR_CHECKED as i128
                    };
                    append = append + add;
                    self.set(
                        xx,
                        yy,
                        Ceil { letter: c.letter, checked: DECAY_START, ceil_type: CeilType::Empty },
                    );
                }
                proof {
                    assert(self@.cells[k] == commit_cell(pre.cells[k], pre.row_bonus(yy as int)));
                    assert(commit_award(pre, k + 1) == commit_award(pre, k) + cell_award(
                        pre.cells[k],
                        pre.any_bonus(),
                        pre.row_bonus(k / pre.width),
                    ));
                }
                xx = xx + 1;
            }
            proof {
                assert((yy + 1) * pre.width == yy * pre.width + pre.width) by (nonlinear_arith);
                assert(pre.width <= 0 ==> (yy * pre.width <= 0 && (yy + 1) * pre.width <= 0))
                    by (nonlinear_arith)
                    requires
                        0 <= yy,
                ;
            }
            yy = yy + 1;
        }
        proof {
            assert(yy * pre.width == pre.cells.len() || (pre.cells.len() == 0 && yy * pre.width
                <= 0)) by (nonlinear_arith)
                requires
                    pre.wf(),
                    pre.height >= 0,
                    0 <= yy <= pre.height,
                    yy >= pre.height,
            ;
            assert(self@.cells =~= commit_cells(pre));
            assert(append == commit_award(pre, pre.cells.len() as int));
            assert(self@ =~= (FieldModel { cells: commit_cells(pre), ..pre }));
        }
        append
    }

    /// Rebuilds a board from a persisted snapshot: dimensions, the flat
    /// row-major cell array, score, longest word, the cached word flag, and
    /// the word list. Refused exactly when the cell count does not match the
    /// dimensions.
    pub fn restore(
        width: i32,
        height: i32,
        cells: Vec<Ceil>,
        scores: i32,
        longest_word: String,
        word_ready: bool,
        words: Vec<String>,
    ) -> (r: Option<Field>)
        ensures
            r is Some <==> cells@.len() == (if width <= 0 || height <= 0 {
                0int
            } else {
                width * height
            }),
            r is Some ==> {
                let f = r.unwrap();
                &&& f@.wf()
                &&& f@ == (FieldModel {
                    width: width as int,
                    height: height as int,
                    cells: cells@,
                    scores: scores as int,
                    longest: longest_word@,
                    ready: word_ready,
                    dict: words.deep_view(),
                })
            },
    {
        let expected: u64 = if width > 0 && height > 0 {
            proof {
                assert((width as int) * (height as int) < 0x4000_0000_0000_0000)
                    by (nonlinear_arith)
                    requires
                        0 < width <= i32::MAX,
                        0 < height <= i32::MAX,
                ;
            }
            (width as u64) * (height as u64)
        } else {
            0
        };
        if cells.len() as u64 != expected {
            return Option::None;
        }
        Option::Some(
            Field {
                scores,
                is_word_ready: word_ready,
                most_lengthy_word: longest_word,
                height,
                width,
                data: cells,
                words,
            },
        )
    }

    /// One click of the selection state machine: starts, extends or commits
    /// the chain, or ignores the click, exactly as `select_rel` lays out,
    /// and recomputes the cached word flag after any classified click.
    pub fn try_check(&mut self, x: i32, y: i32)
        requires
            old(self)@.wf(),
            old(self)@.max_checked() < i32::MAX,
        ensures
            final(self)@.wf(),
            select_rel(old(self)@, final(self)@, x as int, y as int),
            old(self)@.chain_ok() ==> final(self)@.chain_ok(),
            old(self)@.decay_ok() ==> final(self)@.decay_ok(),
    {
        let ghost pre: FieldModel = old(self)@;
        proof {
            grid::lemma_max_checked(pre.cells);
        }
        if x < 0 || y < 0 || x >= self.width || y >= self.height {
            return;
        }
        let t = self.get(x, y);
        match t.ceil_type {
            CeilType::Empty => {
                return;
            },
            CeilType::Bonus => {
                return;
            },
            CeilType::Active => {},
        }
        let ghost target: int = pre.idx(x as int, y as int);
        proof {
            lemma_idx_bounds(pre, x as int, y as int);
        }

        // Snapshot of the bonus lines, taken before any mutation: the commit
        // scoring is defined over the board as the click found it.
        let mut rows_bonus: Vec<bool> = Vec::new();
        let mut any_line: bool = false;
        let mut yy: i32 = 0;
        while yy < self.height
            invariant
                pre.wf(),
                pre.in_bounds(x as int, y as int),
                self@ == pre,
                0 <= yy <= pre.height,
                rows_bonus@.len() == yy,
                forall|r: int| 0 <= r < yy ==> rows_bonus@[r] == pre.row_bonus(r),
                any_line == exists|r: int| 0 <= r < yy && pre.row_bonus(r),
            decreases pre.height - yy,
        {
            let b = self.is_on_the_bonus_line(0, yy);
            proof {
                if b || any_line {
                    assert(exists|r: int| 0 <= r < yy + 1 && pre.row_bonus(r));
                }
            }
            if b {
                any_line = true;
            }
            rows_bonus.push(b);
            yy = yy + 1;
        }
        proof {
            assert(yy == pre.height);
            if any_line {
                let r = choose|r: int| 0 <= r < yy && pre.row_bonus(r);
                let a = choose|a: int| pre.in_bounds(a, r) && pre.is_bonus_spec(a, r);
                assert(pre.in_bounds(a, r) && pre.is_bonus_spec(a, r));
            }
            if pre.any_bonus() {
                let (a, b): (int, int) = choose|a: int, b: int|
                    pre.in_bounds(a, b) && pre.is_bonus_spec(a, b);
                assert(pre.in_bounds(a, b) && pre.is_bonus_spec(a, b));
                assert(pre.row_bonus(b));
                assert(0 <= b < yy && pre.row_bonus(b));
            }
            assert(any_line == pre.any_bonus());
        }

        let m = self.find_max();
        let max_val = m.0;
        let max_x = m.1;
        let max_y = m.2;
        let word = self.get_word();

        let is_unselected = t.checked == 0;
        let is_exists = max_val > 0;
        let dxa = if max_x >= x {
            max_x - x
        } else {
            x - max_x
        };
        let dya = if max_y >= y {
            max_y - y
        } else {
            y - max_y
        };
        let is_near = (dxa == 1 || dya == 1) && dxa <= 1 && dya <= 1 && is_unselected;
        let is_same = x == max_x && y == max_y;

        if is_near {
            proof {
                if max_val > 0 {
                    assert(first_max_at(pre, max_x as int, max_y as int));
                    assert(cheb_adjacent(max_x as int, max_y as int, x as int, y as int));
                }
                assert(extend_cond(pre, x as int, y as int));
            }
            self.set(
                x,
                y,
                Ceil { checked: max_val + 1, letter: t.letter, ceil_type: CeilType::Active },
            );
        } else if !is_exists {
            proof {
                assert(!extend_cond(pre, x as int, y as int));
            }
            self.set(x, y, Ceil { checked: 1, letter: t.letter, ceil_type: CeilType::Active });
        } else {
            proof {
                // The chain's end is unique, so a click elsewhere is neither
                // an extension nor a commit.
                if extend_cond(pre, x as int, y as int) {
                    let (mx, my): (int, int) = choose|mx: int, my: int|
                        first_max_at(pre, mx, my) && cheb_adjacent(mx, my, x as int, y as int);
                    lemma_first_max_unique(pre, mx, my, max_x as int, max_y as int);
                    assert(false);
                }
            }
            let lowered = dict::lower_string(word.as_str());
            let word_fits = self.check_word(lowered);
            if is_same && word_fits {
                proof {
                    assert(commit_cond(pre, x as int, y as int));
                }
                let award = self.commit_clear(&rows_bonus, any_line);

                if self.most_lengthy_word.as_str().unicode_len() < word.as_str().unicode_len() {
                    self.most_lengthy_word = word.clone();
                }

                proof {
                    lemma_size_bound(pre);
                }
                let total: i128 = (self.scores as i128) + award * 2;
                let ns: i32 = if total > i32::MAX as i128 {
                    i32::MAX
                } else if total < i32::MIN as i128 {
                    i32::MIN
                } else {
                    total as i32
                };
                self.scores = ns;
                proof {
                    assert(ns as int == clip_i32(
                        pre.scores + 2 * commit_award(pre, pre.cells.len() as int),
                    ));
                }
            } else {
                proof {
                    if commit_cond(pre, x as int, y as int) {
                        lemma_first_max_unique(pre, x as int, y as int, max_x as int, max_y as int);
                        assert(is_same);
                        assert(word_fits);
                    }
                    assert(!commit_cond(pre, x as int, y as int));
                }
            }
        }

        // Recompute the cached word flag against the (possibly new) chain.
        let new_word = self.get_word();
        let lowered_new = dict::lower_string(new_word.as_str());
        let ready = self.check_word(lowered_new);
        self.is_word_ready = ready;
        proof {
            assert(select_rel(pre, self@, x as int, y as int)) by {
                if extend_cond(pre, x as int, y as int) {
                    assert(self@ =~= after_cells(
                        pre,
                        pre.cells.update(
                            target,
                            Ceil {
                                letter: pre.at(x as int, y as int).letter,
                                checked: (pre.max_checked() + 1) as i32,
                                ceil_type: CeilType::Active,
                            },
                        ),
                    ));
                } else if pre.max_checked() == 0 {
                    assert(self@ =~= after_cells(
                        pre,
                        pre.cells.update(
                            target,
                            Ceil {
                                letter: pre.at(x as int, y as int).letter,
                                checked: 1i32,
                                ceil_type: CeilType::Active,
                            },
                        ),
                    ));
                } else if commit_cond(pre, x as int, y as int) {
                    assert(self@ =~= after_commit(pre));
                } else {
                    assert(self@ =~= after_cells(pre, pre.cells));
                }
            }
            if pre.chain_ok() {
                lemma_select_keeps_chain(pre, self@, x as int, y as int);
            }
            if pre.decay_ok() {
                assert forall|i: int|
                    0 <= i < self@.cells.len() && (#[trigger] self@.cells[i]).checked < 0 implies (
                self@.cells[i].checked as int) % (DECAY_STEP as int) == (-1int) % (
                DECAY_STEP as int) by {
                    if extend_cond(pre, x as int, y as int) || pre.max_checked() == 0 {
                        if i != target {
                            assert(self@.cells[i] == pre.cells[i]);
                        }
                    } else if commit_cond(pre, x as int, y as int) {
                        assert(self@.cells[i] == commit_cell(
                            pre.cells[i],
                            pre.row_bonus(i / pre.width),
                        ));
                    } else {
                        assert(self@.cells[i] == pre.cells[i]);
                    }
                }
            }
        }
    }

    /// Collapses column `x` after the cell at `(x, y)` was vacated: the run
    /// of live cells right above row `y` drops down one row each, leaving
    /// the gap at the top of the run.
    pub fn down(&mut self, x: i32, y: i32)
        requires
            old(self)@.wf(),
            old(self)@.in_bounds(x as int, y as int),
        ensures
            final(self)@ == (FieldModel {
                cells: grid::down_cells(old(self)@.cells, old(self)@.width, x as int, y as int),
                ..old(self)@
            }),
            final(self)@.wf(),
    {
        let ghost pre: FieldModel = old(self)@;
        let ghost w: int = pre.width;
        proof {
            grid::lemma_stop_row(pre.cells, w, x as int, y as int);
        }
        let ghost s: int = grid::stop_row(pre.cells, w, x as int, y as int);
        let mut yc: i32 = y;
        let mut y_n: i32 = y - 1;
        while y_n > -1 && self.get(x, y_n).checked >= 0
            invariant
                pre.wf(),
                pre.in_bounds(x as int, y as int),
                w == pre.width,
                self@.wf(),
                y_n == yc - 1,
                0 <= yc <= y,
                self@ == (FieldModel { cells: self@.cells, ..pre }),
                self@.cells.len() == pre.cells.len(),
                forall|r: int|
                    yc < r <= y ==> self@.cells[pre.idx(x as int, r)] == pre.cells[pre.idx(
                        x as int,
                        r - 1,
                    )],
                self@.cells[pre.idx(x as int, yc as int)] == pre.cells[pre.idx(
                    x as int,
                    y as int,
                )],
                forall|i: int|
                    0 <= i < pre.cells.len() && !(i % w == x as int && yc <= i / w <= y)
                        ==> self@.cells[i] == pre.cells[i],
                forall|r: int|
                    yc <= r < y ==> pre.cells[pre.idx(x as int, r)].checked >= 0,
            decreases yc,
        {
            let ghost old_yc: int = yc as int;
            let ghost i1: int = pre.idx(x as int, old_yc);
            let ghost i2: int = pre.idx(x as int, old_yc - 1);
            proof {
                lemma_idx_bounds(pre, x as int, y_n as int);
                lemma_idx_bounds(pre, x as int, yc as int);
                lemma_idx_distinct(pre, x as int, old_yc, x as int, old_yc - 1);
                assert(0 <= i2 < pre.cells.len());
                assert(i2 % w == x as int && i2 / w == old_yc - 1);
                assert(!(i2 % w == x as int && yc <= i2 / w <= y));
                assert(self@.cells[i2] == pre.cells[i2]);
            }
            let temp = self.get(x, yc);
            let above = self.get(x, y_n);
            self.set(x, yc, above);
            self.set(x, y_n, temp);
            yc = y_n;
            y_n = y_n - 1;
            proof {
                assert(self@.cells[i2] == pre.cells[pre.idx(x as int, y as int)]);
                assert(self@.cells[i1] == pre.cells[i2]);
                assert forall|r: int|
                    yc < r <= y implies self@.cells[pre.idx(x as int, r)] == pre.cells[pre.idx(
                    x as int,
                    r - 1,
                )] by {
                    lemma_idx_bounds(pre, x as int, r);
                    if r > old_yc {
                        lemma_idx_distinct(pre, x as int, r, x as int, old_yc);
                        lemma_idx_distinct(pre, x as int, r, x as int, old_yc - 1);
                    }
                }
                assert forall|i: int|
                    0 <= i < pre.cells.len() && !(i % w == x as int && yc <= i / w <= y)
                        implies self@.cells[i] == pre.cells[i] by {
                    lemma_flat_to_coords(pre, i);
                    if i != i1 && i != i2 {
                    } else {
                        lemma_idx_bounds(pre, x as int, old_yc);
                        lemma_idx_bounds(pre, x as int, old_yc - 1);
                        assert(false);
                    }
                }
            }
        }
        proof {
            // The loop halted exactly on the resting row the spec names.
            if 0 < yc {
                lemma_idx_bounds(pre, x as int, yc - 1);
                assert(self@.cells[pre.idx(x as int, yc - 1)] == pre.cells[pre.idx(
                    x as int,
                    yc - 1,
                )]);
                assert(pre.cells[pre.idx(x as int, yc - 1)].checked < 0);
            }
            if yc < s {
                assert(pre.cells[(s - 1) * w + x].checked < 0);
                assert(pre.cells[pre.idx(x as int, s - 1)].checked >= 0);
                assert(false);
            }
            if yc > s {
                assert(pre.cells[(yc - 1) * w + x].checked >= 0);
                assert(false);
            }
            assert(yc == s);
            assert forall|i: int|
                0 <= i < self@.cells.len() implies self@.cells[i] == grid::down_cells(
                pre.cells,
                w,
                x as int,
                y as int,
            )[i] by {
                lemma_flat_to_coords(pre, i);
                if i % w == x as int && s <= i / w <= y {
                    if i / w > s {
                        assert(self@.cells[pre.idx(x as int, i / w)] == pre.cells[pre.idx(
                            x as int,
                            i / w - 1,
                        )]);
                    }
                }
            }
            assert(self@.cells =~= grid::down_cells(pre.cells, w, x as int, y as int));
            assert(self@ =~= (FieldModel {
                cells: grid::down_cells(pre.cells, w, x as int, y as int),
                ..pre
            }));
        }
    }

    /// One animation frame: every decaying cell's countdown advances by the
    /// pacing step, and each cell that finishes is vacated and has its
    /// column collapsed, in row-major order, each step seeing the grid the
    /// previous steps left behind.
    pub fn tick(&mut self)
        requires
            old(self)@.wf(),
        ensures
            final(self)@ == (FieldModel {
                cells: grid::tick_upto(
                    old(self)@.cells,
                    old(self)@.width,
                    old(self)@.cells.len() as int,
                ),
                ..old(self)@
            }),
            final(self)@.wf(),
            old(self)@.decay_ok() && grid::unselected_all(old(self)@.cells) ==> {
                &&& final(self)@.decay_ok()
                &&& grid::unselected_all(final(self)@.cells)
                &&& final(self)@.chain_ok()
                &&& final(self)@.max_checked() == 0
            },
    {
        let ghost pre: FieldModel = old(self)@;
        let ghost w: int = pre.width;
        let mut i: i32 = 0;
        while i < self.height
            invariant
                pre.wf(),
                w == pre.width,
                self@.wf(),
                0 <= i,
                i <= pre.height || i == 0,
                self@ == (FieldModel { cells: self@.cells, ..pre }),
                self@.cells == grid::tick_upto(pre.cells, w, i * w),
                self@.cells.len() == pre.cells.len(),
            decreases pre.height - i,
        {
            let mut j: i32 = 0;
            while j < self.width
                invariant
                    pre.wf(),
                    w == pre.width,
                    self@.wf(),
                    0 <= i < pre.height,
                    0 <= j,
                    j <= pre.width || j == 0,
                    self@ == (FieldModel { cells: self@.cells, ..pre }),
                    self@.cells == grid::tick_upto(pre.cells, w, i * w + j),
                    self@.cells.len() == pre.cells.len(),
                decreases pre.width - j,
            {
                let ghost k: int = i * w + j;
                let ghost cur: Seq<Ceil> = self@.cells;
                proof {
                    lemma_idx_bounds(self@, j as int, i as int);
                }
                let c = self.get(j, i);
                if c.checked < 0 {
                    if c.checked == -1 {
                        self.set(
                            j,
                            i,
                            Ceil { letter: ' ', checked: 0, ceil_type: CeilType::Empty },
                        );
                        self.down(j, i);
                    } else {
                        self.set(
                            j,
                            i,
                            Ceil {
                                letter: c.letter,
                                checked: c.checked + DECAY_STEP,
                                ceil_type: CeilType::Empty,
                            },
                        );
                    }
                }
                proof {
                    assert(grid::tick_upto(pre.cells, w, k + 1) == grid::tick_cell_step(
                        cur,
                        w,
                        k,
                    ));
                    assert(self@.cells == grid::tick_cell_step(cur, w, k));
                }
                j = j + 1;
            }
            proof {
                assert((i + 1) * w == i * w + w) by (nonlinear_arith);
                assert(w <= 0 ==> (i * w <= 0 && (i + 1) * w <= 0)) by (nonlinear_arith)
                    requires
                        0 <= i,
                ;
            }
            i = i + 1;
        }
        proof {
            assert(i * w == pre.cells.len() || (pre.cells.len() == 0 && i * w <= 0))
                by (nonlinear_arith)
                requires
                    pre.wf(),
                    w == pre.width,
                    0 <= i,
                    i >= pre.height,
                    i <= pre.height || i == 0,
            ;
            assert(self@.cells == grid::tick_upto(pre.cells, w, pre.cells.len() as int));
            assert(self@ =~= (FieldModel {
                cells: grid::tick_upto(pre.cells, w, pre.cells.len() as int),
                ..pre
            }));
            if pre.decay_ok() && grid::unselected_all(pre.cells) {
                if w >= 1 {
                    grid::lemma_tick_keeps_settled(pre.cells, w, pre.cells.len() as int);
                }
                grid::lemma_chain_ok_when_none(self@.cells);
            }
        }
    }

    /// Overwrites every cell with a fresh unselected letter drawn from the
    /// weighted frequency table; per row, one column drawn from
    /// `[-width, width)` becomes a bonus cell, so a negative draw leaves the
    /// row without one — an asymmetry kept deliberately. Score, longest word
    /// and the cached word flag are untouched.
    pub fn generate(&mut self)
        requires
            old(self)@.wf(),
        ensures
            final(self)@.wf(),
            final(self)@ == (FieldModel { cells: final(self)@.cells, ..old(self)@ }),
            final(self)@.cells.len() == old(self)@.cells.len(),
            forall|x: int, y: int|
                #![trigger final(self)@.at(x, y)]
                final(self)@.in_bounds(x, y) ==> {
                    &&& final(self)@.at(x, y).checked == 0
                    &&& gen::table_letter(final(self)@.at(x, y).letter)
                    &&& (final(self)@.at(x, y).ceil_type == CeilType::Active || final(self)@.at(
                        x,
                        y,
                    ).ceil_type == CeilType::Bonus)
                },
            forall|y: int, x1: int, x2: int|
                #![trigger final(self)@.at(x1, y), final(self)@.at(x2, y)]
                final(self)@.in_bounds(x1, y) && final(self)@.in_bounds(x2, y) && final(self)@.at(
                    x1,
                    y,
                ).ceil_type == CeilType::Bonus && final(self)@.at(x2, y).ceil_type
                    == CeilType::Bonus ==> x1 == x2,
            final(self)@.max_checked() == 0,
            final(self)@.chain_ok(),
            final(self)@.decay_ok(),
    {
        let ghost pre: FieldModel = old(self)@;
        let pool = gen::letter_pool();
        let mut yy: i32 = 0;
        while yy < self.height
            invariant
                pre.wf(),
                self@.wf(),
                pool@.len() == gen::POOL_LEN,
                forall|k: int| 0 <= k < pool@.len() ==> gen::table_letter(#[trigger] pool@[k]),
                0 <= yy,
                self@ == (FieldModel { cells: self@.cells, ..pre }),
                self@.cells.len() == pre.cells.len(),
                forall|x: int, y: int|
                    #![trigger self@.at(x, y)]
                    self@.in_bounds(x, y) && y < yy ==> {
                        &&& self@.at(x, y).checked == 0
                        &&& gen::table_letter(self@.at(x, y).letter)
                        &&& (self@.at(x, y).ceil_type == CeilType::Active || self@.at(x, y).ceil_type
                            == CeilType::Bonus)
                    },
                forall|y: int, x1: int, x2: int|
                    #![trigger self@.at(x1, y), self@.at(x2, y)]
                    self@.in_bounds(x1, y) && self@.in_bounds(x2, y) && y < yy && self@.at(
                        x1,
                        y,
                    ).ceil_type == CeilType::Bonus && self@.at(x2, y).ceil_type == CeilType::Bonus
                        ==> x1 == x2,
            decreases self@.height - yy,
        {
            let bonus_col: i32 = if self.width > 0 {
                gen::rand_in_range(-self.width, self.width)
            } else {
                0
            };
            let mut xx: i32 = 0;
            while xx < self.width
                invariant
                    pre.wf(),
                    self@.wf(),
                    pool@.len() == gen::POOL_LEN,
                    forall|k: int| 0 <= k < pool@.len() ==> gen::table_letter(#[trigger] pool@[k]),
                    0 <= yy < self@.height,
                    0 <= xx,
                    self@ == (FieldModel { cells: self@.cells, ..pre }),
                    self@.cells.len() == pre.cells.len(),
                    forall|x: int, y: int|
                        #![trigger self@.at(x, y)]
                        self@.in_bounds(x, y) && y < yy ==> {
                            &&& self@.at(x, y).checked == 0
                            &&& gen::table_letter(self@.at(x, y).letter)
                            &&& (self@.at(x, y).ceil_type == CeilType::Active || self@.at(
                                x,
                                y,
                            ).ceil_type == CeilType::Bonus)
                        },
                    forall|y: int, x1: int, x2: int|
                        #![trigger self@.at(x1, y), self@.at(x2, y)]
                        self@.in_bounds(x1, y) && self@.in_bounds(x2, y) && y < yy && self@.at(
                            x1,
                            y,
                        ).ceil_type == CeilType::Bonus && self@.at(x2, y).ceil_type
                            == CeilType::Bonus ==> x1 == x2,
                    forall|x: int|
                        #![trigger self@.at(x, yy as int)]
                        0 <= x < xx ==> {
                            &&& self@.at(x, yy as int).checked == 0
                            &&& gen::table_letter(self@.at(x, yy as int).letter)
                            &&& self@.at(x, yy as int).ceil_type == (if x == bonus_col {
                                CeilType::Bonus
                            } else {
                                CeilType::Active
                            })
                        },
                decreases self@.width - xx,
            {
                let idx = gen::rand_in_range(0, pool.len() as i32);
                let letter = pool[idx as usize];
                let ct = if xx == bonus_col {
                    CeilType::Bonus
                } else {
                    CeilType::Active
                };
                let ghost prev: FieldModel = self@;
                self.set(xx, yy, Ceil { letter, checked: 0, ceil_type: ct });
                proof {
                    lemma_idx_bounds(prev, xx as int, yy as int);
                    assert(gen::table_letter(letter));
                    assert forall|x: int, y: int|
                        #![trigger self@.at(x, y)]
                        self@.in_bounds(x, y) implies self@.at(x, y) == (if x == xx && y == yy {
                        Ceil { letter, checked: 0, ceil_type: ct }
                    } else {
                        prev.at(x, y)
                    }) by {
                        lemma_idx_bounds(prev, x, y);
                        if !(x == xx && y == yy) {
                            lemma_idx_distinct(prev, x, y, xx as int, yy as int);
                        }
                    }
                }
                xx = xx + 1;
            }
            yy = yy + 1;
        }
        proof {
            assert forall|k: int| 0 <= k < self@.cells.len() implies
                self@.cells[k].checked == 0 by {
                lemma_flat_to_coords(self@, k);
                assert(self@.at(k % self@.width, k / self@.width) == self@.cells[k]);
            }
            grid::lemma_chain_ok_when_none(self@.cells);
        }
    }

    /// The compass direction of the chain link leaving `(x, y)`: where the
    /// cell with the next chain index lies, probing the eight neighbours in
    /// a fixed order. `Nowhere` when the cell is unselected, out of the
    /// grid, or the chain ends here.
    pub fn get_direction(&self, x: i32, y: i32) -> (r: Direction)
        requires
            self@.wf(),
            self@.max_checked() < i32::MAX,
        ensures
            r == direction_spec(self@, x as int, y as int),
    {
        let v = self.is_checked(x, y);
        if v > 0 {
            proof {
                grid::lemma_max_checked(self@.cells);
                lemma_idx_bounds(self@, x as int, y as int);
                assert(self@.at(x as int, y as int).checked <= self@.max_checked());
            }
            self.direction_probe(x, y, v + 1)
        } else {
            Direction::Nowhere
        }
    }

    /// The compass direction of the chain link entering `(x, y)`: where the
    /// cell with the previous chain index lies. `Nowhere` when the cell is
    /// unselected, out of the grid, or the chain starts here.
    pub fn get_before_direction(&self, x: i32, y: i32) -> (r: Direction)
        requires
            self@.wf(),
        ensures
            r == before_direction_spec(self@, x as int, y as int),
    {
        let v = self.is_checked(x, y);
        if v > 1 {
            self.direction_probe(x, y, v - 1)
        } else {
            Direction::Nowhere
        }
    }

    /// Probes the eight neighbours of `(x, y)` for the chain index `v`, in
    /// the fixed order the renderer relies on.
    fn direction_probe(&self, x: i32, y: i32, v: i32) -> (r: Direction)
        requires
            self@.wf(),
            self@.in_bounds(x as int, y as int),
        ensures
            r == dir_probe_spec(self@, x as int, y as int, v as int),
    {
        if self.is_checked(x + 1, y) == v {
            Direction::LeftToRight
        } else if self.is_checked(x - 1, y) == v {
            Direction::RightToLeft
        } else if self.is_checked(x, y - 1) == v {
            Direction::DownToUp
        } else if self.is_checked(x, y + 1) == v {
            Direction::UpToDown
        } else if self.is_checked(x - 1, y + 1) == v {
            Direction::UpRightToDownLeft
        } else if self.is_checked(x - 1, y - 1) == v {
            Direction::DownRightToUpLeft
        } else if self.is_checked(x + 1, y + 1) == v {
            Direction::UpLeftToDownRight
        } else if self.is_checked(x + 1, y - 1) == v {
            Direction::DownLeftToUpRight
        } else {
            Direction::Nowhere
        }
    }

    /// Whether the neighbour at offset `(ox, oy)` of `(x, y)` is a selected
    /// cell that bonus detection accepts.
    fn neighbor_sel(&self, x: i32, y: i32, ox: i32, oy: i32) -> (r: bool)
        requires
            self@.wf(),
            self@.in_bounds(x as int, y as int),
            -1 <= ox <= 1,
            -1 <= oy <= 1,
        ensures
            r == self@.neighbor_selected(x as int, y as int, ox as int, oy as int),
    {
        let nx = x + ox;
        let ny = y + oy;
        if self.is_valid(nx, ny) {
            self.get(nx, ny).checked > 0
        } else {
            false
        }
    }

    /// Whether `(x, y)` holds an active bonus cell: a bonus cell with a
    /// selected 8-neighbour, probing the scan's seven offsets. Out-of-grid
    /// coordinates answer `false`.
    pub fn is_bonus(&self, x: i32, y: i32) -> (r: bool)
        requires
            self@.wf(),
        ensures
            r == (self@.in_bounds(x as int, y as int) && self@.is_bonus_spec(x as int, y as int)),
    {
        if x < 0 || y < 0 || x >= self.width || y >= self.height {
            return false;
        }
        let ceil = self.get(x, y);
        if !(ceil.ceil_type == CeilType::Bonus) {
            return false;
        }
        self.neighbor_sel(x, y, -1, -1) || self.neighbor_sel(x, y, 0, -1)
            || self.neighbor_sel(x, y, 1, -1) || self.neighbor_sel(x, y, -1, 0)
            || self.neighbor_sel(x, y, 1, 0) || self.neighbor_sel(x, y, -1, 1)
            || self.neighbor_sel(x, y, 0, 1)
    }

    /// Whether any active bonus cell exists on the board.
    pub fn is_bonus_exists(&self) -> (r: bool)
        requires
            self@.wf(),
        ensures
            r == self@.any_bonus(),
    {
        let mut y: i32 = 0;
        while y < self.height
            invariant
                self@.wf(),
                0 <= y,
                forall|a: int, b: int|
                    self@.in_bounds(a, b) && b < y ==> !self@.is_bonus_spec(a, b),
            decreases self@.height - y,
        {
            let mut x: i32 = 0;
            while x < self.width
                invariant
                    self@.wf(),
                    0 <= y < self@.height,
                    0 <= x,
                    forall|a: int, b: int|
                        self@.in_bounds(a, b) && b < y ==> !self@.is_bonus_spec(a, b),
                    forall|a: int| 0 <= a < x ==> !self@.is_bonus_spec(a, y as int),
                decreases self@.width - x,
            {
                if self.is_bonus(x, y) {
                    return true;
                }
                x = x + 1;
            }
            y = y + 1;
        }
        false
    }

    /// Whether row `y` is a bonus line: it holds an active bonus cell. The
    /// column argument plays no part and is kept only for the call shape.
    pub fn is_on_the_bonus_line(&self, _x: i32, y: i32) -> (r: bool)
        requires
            self@.wf(),
        ensures
            r == self@.row_bonus(y as int),
    {
        if y < 0 || y >= self.height {
            return false;
        }
        let mut nx: i32 = 0;
        while nx < self.width
            invariant
                self@.wf(),
                0 <= y < self@.height,
                0 <= nx,
                forall|a: int| 0 <= a < nx ==> !self@.is_bonus_spec(a, y as int),
            decreases self@.width - nx,
        {
            if self.get(nx, y).ceil_type == CeilType::Bonus && self.is_bonus(nx, y) {
                return true;
            }
            proof {
                if self@.is_bonus_spec(nx as int, y as int) {
                    assert(self@.at(nx as int, y as int).ceil_type == CeilType::Bonus);
                }
            }
            nx = nx + 1;
        }
        false
    }
}

} // verus!
