//! Per-cell status with running counters, and the local constraint-propagation engine
//! that works on it.

use vstd::prelude::*;
use crate::grid::{
    cell_index, count_around, count_where, in_grid, lemma_around_change, lemma_around_ext,
    lemma_around_le, lemma_around_mono, lemma_count_change, lemma_count_ext, lemma_count_le, lemma_count_mono, lemma_count_pos,
    lemma_count_zero, lemma_grid_shape, lemma_index_bounds, lemma_index_injective,
    lemma_window_slot, lemma_slot_inverse, neighbours_count, touching, window_dx, window_dy, window_slot,
};

verus! {

/// Status of a cell as the engine sees it. `DefinitelySafe` only ever appears on a
/// speculative copy of a board.
#[derive(Clone, Copy, Debug, PartialEq, Eq, Structural)]
pub enum ICellState {
    Veiled,
    Flagged,
    Mine,
    Safe(usize),
    DefinitelySafe,
}

/// What the counting rules conclude about the neighbours of a numbered cell.
#[derive(Clone, Copy, Debug, PartialEq, Eq, Structural)]
pub enum CellEnvironment {
    AllMines,
    AllSafe,
    Unsure,
    Impossible,
}

impl ICellState {
    /// Counts towards the unveiled cells.
    pub open spec fn is_unveiled(self) -> bool {
        self is Safe || self is DefinitelySafe
    }

    /// Could still be a mine.
    pub open spec fn is_potential_mine(self) -> bool {
        self is Veiled || self is Flagged || self is Mine
    }
}

/// Mathematical model of a [`GameState`].
pub ghost struct BoardView {
    pub width: int,
    pub height: int,
    /// Row-major: cell `(x, y)` is at `y * width + x`.
    pub cells: Seq<ICellState>,
    pub flags: int,
    pub unveiled: int,
    pub mine_count: int,
}

impl BoardView {
    pub open spec fn area(self) -> int {
        self.width * self.height
    }

    pub open spec fn status_at(self, x: int, y: int) -> ICellState {
        self.cells[cell_index(self.width, x, y)]
    }

    pub open spec fn flagged(self) -> spec_fn(int) -> bool {
        |i: int| self.cells[i] is Flagged
    }

    pub open spec fn unveiled_cells(self) -> spec_fn(int) -> bool {
        |i: int| self.cells[i].is_unveiled()
    }

    pub open spec fn veiled(self) -> spec_fn(int) -> bool {
        |i: int| self.cells[i] is Veiled
    }

    pub open spec fn veiled_count(self) -> nat {
        count_where(self.area(), self.veiled())
    }

    pub open spec fn flag_at(self) -> spec_fn(int, int) -> bool {
        |a: int, b: int| in_grid(self.width, self.height, a, b) && self.status_at(a, b) is Flagged
    }

    pub open spec fn potential_at(self) -> spec_fn(int, int) -> bool {
        |a: int, b: int|
            in_grid(self.width, self.height, a, b) && self.status_at(a, b).is_potential_mine()
    }

    /// Flagged neighbours of `(x, y)`.
    pub open spec fn flags_around(self, x: int, y: int) -> nat {
        neighbours_count(x, y, self.flag_at())
    }

    /// Neighbours of `(x, y)` that could still be mines.
    pub open spec fn potential_around(self, x: int, y: int) -> nat {
        neighbours_count(x, y, self.potential_at())
    }

    /// The counting rules applied to the cell `(x, y)`.
    pub open spec fn classify(self, x: int, y: int) -> CellEnvironment {
        match self.status_at(x, y) {
            ICellState::Safe(n) => {
                if self.flags_around(x, y) == n {
                    CellEnvironment::AllSafe
                } else if self.potential_around(x, y) == n {
                    CellEnvironment::AllMines
                } else if self.flags_around(x, y) > n || self.potential_around(x, y) < n {
                    CellEnvironment::Impossible
                } else {
                    CellEnvironment::Unsure
                }
            },
            _ => CellEnvironment::Unsure,
        }
    }

    /// No cell touching `(x, y)` is veiled.
    pub open spec fn no_veiled_around(self, x: int, y: int) -> bool {
        forall|a: int, b: int|
            in_grid(self.width, self.height, a, b) && touching(a, b, x, y) ==> !(#[trigger] self.status_at(a, b) is Veiled)
    }

    /// The counting rules leave nothing to do at `(x, y)`: no contradiction, and no veiled
    /// neighbour left where they force all of them one way.
    pub open spec fn settled(self, x: int, y: int) -> bool {
        &&& self.classify(x, y) != CellEnvironment::Impossible
        &&& (self.classify(x, y) == CellEnvironment::AllSafe || self.classify(x, y)
            == CellEnvironment::AllMines) ==> self.no_veiled_around(x, y)
    }

    /// The two counter invariants.
    pub open spec fn sane(self) -> bool {
        self.flags <= self.mine_count && self.unveiled + self.mine_count <= self.area()
    }

    pub open spec fn wf(self) -> bool {
        &&& self.width >= 3
        &&& self.height >= 3
        &&& self.area() <= usize::MAX
        &&& self.cells.len() == self.area()
        &&& 0 <= self.mine_count <= usize::MAX
        &&& self.flags == count_where(self.area(), self.flagged())
        &&& self.unveiled == count_where(self.area(), self.unveiled_cells())
    }

    /// The same board with cell `(x, y)` set to `s`, counters following.
    pub open spec fn with_cell(self, x: int, y: int, s: ICellState) -> BoardView {
        let cells = self.cells.update(cell_index(self.width, x, y), s);
        BoardView {
            cells,
            flags: count_where(self.area(), |i: int| cells[i] is Flagged) as int,
            unveiled: count_where(self.area(), |i: int| cells[i].is_unveiled()) as int,
            ..self
        }
    }

    /// Every cell that differs from `start` was veiled there and is now marked safe
    /// or flagged.
    pub open spec fn only_marks(self, start: BoardView) -> bool {
        forall|i: int|
            0 <= i < self.area() && #[trigger] self.cells[i] != start.cells[i] ==> start.cells[i]
                is Veiled && (self.cells[i] is DefinitelySafe || self.cells[i] is Flagged)
    }

    /// Cell `(x, y)` touches `(cx, cy)` or a cell that differs from `start`.
    pub open spec fn examined(self, start: BoardView, cx: int, cy: int, x: int, y: int) -> bool {
        touching(x, y, cx, cy) || exists|mx: int, my: int|
            in_grid(self.width, self.height, mx, my) && #[trigger] self.status_at(mx, my)
                != start.status_at(mx, my) && touching(x, y, mx, my)
    }

    /// No cell touching `(cx, cy)` carries a number.
    pub open spec fn no_number_around(self, cx: int, cy: int) -> bool {
        forall|x: int, y: int|
            in_grid(self.width, self.height, x, y) && touching(x, y, cx, cy) ==> !(#[trigger] self.status_at(x, y) is Safe)
    }

    /// What propagating from `(cx, cy)` on `self` may leave behind: `fin` only adds marks;
    /// `ok` holds exactly when `fin` is sane and no cell it examined is contradictory, and
    /// then every examined cell is settled; nothing changes when no numbered cell touches
    /// the centre.
    pub open spec fn propagation(self, cx: int, cy: int, fin: BoardView, ok: bool) -> bool {
        &&& fin.wf()
        &&& fin.width == self.width
        &&& fin.height == self.height
        &&& fin.mine_count == self.mine_count
        &&& fin.only_marks(self)
        &&& ok == (fin.sane() && forall|x: int, y: int|
            in_grid(self.width, self.height, x, y) && fin.examined(self, cx, cy, x, y) ==> #[trigger] fin.classify(x, y) != CellEnvironment::Impossible)
        &&& ok ==> forall|x: int, y: int|
            in_grid(self.width, self.height, x, y) && fin.examined(self, cx, cy, x, y) ==> #[trigger] fin.settled(x, y)
        &&& self.no_number_around(cx, cy) ==> fin.cells == self.cells
    }
}

/// Cells of equal status around `(x, y)` give it the same classification.
pub proof fn lemma_classify_frame(b1: BoardView, b2: BoardView, x: int, y: int)
    requires
        b1.width == b2.width,
        b1.height == b2.height,
        in_grid(b1.width, b1.height, x, y),
        forall|a: int, b: int|
            in_grid(b1.width, b1.height, a, b) && touching(a, b, x, y) ==> #[trigger] b1.status_at(a, b)
                == b2.status_at(a, b),
    ensures
        b1.classify(x, y) == b2.classify(x, y),
{
    assert(touching(x, y, x, y));
    assert forall|j: int| 0 <= j < 9 && j != 4 implies #[trigger] b1.flag_at()(x + window_dx(j), y + window_dy(j)) == b2.flag_at()(x + window_dx(j), y + window_dy(j)) by {
        lemma_window_slot(x, y, j);
    }
    assert forall|j: int| 0 <= j < 9 && j != 4 implies #[trigger] b1.potential_at()(x + window_dx(j), y + window_dy(j)) == b2.potential_at()(x + window_dx(j), y + window_dy(j)) by {
        lemma_window_slot(x, y, j);
    }
    lemma_around_ext(9, x, y, b1.flag_at(), b2.flag_at());
    lemma_around_ext(9, x, y, b1.potential_at(), b2.potential_at());
}

/// Cells of equal status around `(x, y)` leave it equally settled.
pub proof fn lemma_settled_frame(b1: BoardView, b2: BoardView, x: int, y: int)
    requires
        b1.width == b2.width,
        b1.height == b2.height,
        in_grid(b1.width, b1.height, x, y),
        forall|a: int, b: int|
            in_grid(b1.width, b1.height, a, b) && touching(a, b, x, y) ==> #[trigger] b1.status_at(a, b)
                == b2.status_at(a, b),
    ensures
        b1.settled(x, y) == b2.settled(x, y),
{
    lemma_classify_frame(b1, b2, x, y);
    assert forall|a: int, b: int|
        in_grid(b1.width, b1.height, a, b) && touching(a, b, x, y) implies #[trigger] b2.status_at(a, b)
        == b1.status_at(a, b) by {}
    assert(b1.no_veiled_around(x, y) == b2.no_veiled_around(x, y));
}

/// A cell other than the one written keeps its status.
pub proof fn lemma_status_other(b1: BoardView, b2: BoardView, mx: int, my: int, s: ICellState, a: int, b: int)
    requires
        b1.wf(),
        b2.width == b1.width,
        b2.cells == b1.cells.update(cell_index(b1.width, mx, my), s),
        in_grid(b1.width, b1.height, mx, my),
        in_grid(b1.width, b1.height, a, b),
    ensures
        (a != mx || b != my) ==> b2.status_at(a, b) == b1.status_at(a, b),
        (a == mx && b == my) ==> b2.status_at(a, b) == s,
{
    lemma_index_injective(b1.width, b1.height, a, b, mx, my);
    lemma_index_bounds(b1.width, b1.height, a, b);
    lemma_index_bounds(b1.width, b1.height, mx, my);
}

/// Flagged neighbours never outnumber possible mines.
pub proof fn lemma_flags_le_potential(b: BoardView, x: int, y: int)
    ensures
        b.flags_around(x, y) <= b.potential_around(x, y),
{
    lemma_around_mono(9, x, y, b.flag_at(), b.potential_at());
}

/// How the neighbour counts of `(x, y)` move when its veiled neighbour `(mx, my)`
/// gets the mark `s`.
pub proof fn lemma_mark_counts(b1: BoardView, b2: BoardView, x: int, y: int, mx: int, my: int, s: ICellState)
    requires
        b1.wf(),
        b2.width == b1.width,
        b2.height == b1.height,
        b2.cells == b1.cells.update(cell_index(b1.width, mx, my), s),
        in_grid(b1.width, b1.height, mx, my),
        touching(mx, my, x, y),
        mx != x || my != y,
        b1.status_at(mx, my) is Veiled,
        s is Flagged || s is DefinitelySafe,
    ensures
        b2.flags_around(x, y) == b1.flags_around(x, y) + if s is Flagged { 1int } else { 0int },
        b2.potential_around(x, y) == b1.potential_around(x, y) - if s is Flagged { 0int } else { 1int },
{
    assert forall|j: int| 0 <= j < 9 && j != 4 && (x + window_dx(j) != mx || y + window_dy(j) != my) implies #[trigger] b1.flag_at()(x + window_dx(j), y + window_dy(j)) == b2.flag_at()(x + window_dx(j), y + window_dy(j)) by {
        if in_grid(b1.width, b1.height, x + window_dx(j), y + window_dy(j)) {
            lemma_status_other(b1, b2, mx, my, s, x + window_dx(j), y + window_dy(j));
        }
    }
    assert forall|j: int| 0 <= j < 9 && j != 4 && (x + window_dx(j) != mx || y + window_dy(j) != my) implies #[trigger] b1.potential_at()(x + window_dx(j), y + window_dy(j)) == b2.potential_at()(x + window_dx(j), y + window_dy(j)) by {
        if in_grid(b1.width, b1.height, x + window_dx(j), y + window_dy(j)) {
            lemma_status_other(b1, b2, mx, my, s, x + window_dx(j), y + window_dy(j));
        }
    }
    lemma_status_other(b1, b2, mx, my, s, mx, my);
    assert(window_slot(x, y, mx, my) < 9);
    lemma_around_change(9, x, y, b1.flag_at(), b2.flag_at(), mx, my);
    lemma_around_change(9, x, y, b1.potential_at(), b2.potential_at(), mx, my);
}

/// Propagation from a veiled cell supposed safe fails when that cell is a neighbour
/// of a numbered cell whose possible mines exactly match its number.
pub proof fn lemma_forced_mine_found(
    b: BoardView,
    x: int,
    y: int,
    qx: int,
    qy: int,
    fin: BoardView,
    ok: bool,
)
    requires
        b.wf(),
        in_grid(b.width, b.height, x, y),
        b.status_at(x, y) is Safe,
        b.potential_around(x, y) == b.status_at(x, y)->Safe_0,
        in_grid(b.width, b.height, qx, qy),
        touching(qx, qy, x, y),
        b.status_at(qx, qy) is Veiled,
        b.with_cell(qx, qy, ICellState::DefinitelySafe).propagation(qx, qy, fin, ok),
    ensures
        !ok,
{
    let st = b.with_cell(qx, qy, ICellState::DefinitelySafe);
    let n = b.status_at(x, y)->Safe_0;
    assert(qx != x || qy != y);
    lemma_mark_counts(b, st, x, y, qx, qy, ICellState::DefinitelySafe);
    lemma_status_other(b, st, qx, qy, ICellState::DefinitelySafe, x, y);
    lemma_index_bounds(b.width, b.height, x, y);
    assert(fin.status_at(x, y) == st.status_at(x, y));
    assert forall|j: int| 0 <= j < 9 && j != 4 && #[trigger] fin.potential_at()(x + window_dx(j), y + window_dy(j)) implies st.potential_at()(x + window_dx(j), y + window_dy(j)) by {
        lemma_index_bounds(b.width, b.height, x + window_dx(j), y + window_dy(j));
    }
    lemma_around_mono(9, x, y, fin.potential_at(), st.potential_at());
    lemma_flags_le_potential(fin, x, y);
    assert(fin.classify(x, y) == CellEnvironment::Impossible);
    assert(fin.examined(st, qx, qy, x, y));
}

/// Propagation from a veiled cell supposed safe succeeds when no numbered cell touches
/// it and the board stays sane with that cell unveiled.
pub proof fn lemma_unconstrained_not_mined(b: BoardView, qx: int, qy: int, fin: BoardView, ok: bool)
    requires
        b.wf(),
        in_grid(b.width, b.height, qx, qy),
        b.status_at(qx, qy) is Veiled,
        b.no_number_around(qx, qy),
        b.flags <= b.mine_count,
        b.unveiled + 1 + b.mine_count <= b.area(),
        b.with_cell(qx, qy, ICellState::DefinitelySafe).propagation(qx, qy, fin, ok),
    ensures
        ok,
{
    let st = b.with_cell(qx, qy, ICellState::DefinitelySafe);
    lemma_index_bounds(b.width, b.height, qx, qy);
    let i = cell_index(b.width, qx, qy);
    assert forall|x: int, y: int|
        in_grid(st.width, st.height, x, y) && touching(x, y, qx, qy) implies !(#[trigger] st.status_at(x, y) is Safe) by {
        lemma_status_other(b, st, qx, qy, ICellState::DefinitelySafe, x, y);
    }
    assert(fin.cells == st.cells);
    lemma_count_change(b.area(), b.flagged(), |j: int| st.cells[j] is Flagged, i);
    lemma_count_change(b.area(), b.unveiled_cells(), |j: int| st.cells[j].is_unveiled(), i);
    lemma_count_ext(b.area(), |j: int| st.cells[j] is Flagged, fin.flagged());
    lemma_count_ext(b.area(), |j: int| st.cells[j].is_unveiled(), fin.unveiled_cells());
    assert(fin.sane());
    assert forall|x: int, y: int|
        in_grid(st.width, st.height, x, y) && fin.examined(st, qx, qy, x, y) implies #[trigger] fin.classify(x, y) != CellEnvironment::Impossible by {
        if !touching(x, y, qx, qy) {
            let (mx, my) = choose|mx: int, my: int|
                in_grid(fin.width, fin.height, mx, my) && #[trigger] fin.status_at(mx, my)
                    != st.status_at(mx, my) && touching(x, y, mx, my);
            assert(false);
        }
        lemma_status_other(b, st, qx, qy, ICellState::DefinitelySafe, x, y);
    }
}

/// Cell statuses of one board with running counters.
pub struct GameState {
    board: Vec<ICellState>,
    dim: (usize, usize),
    flag_count: usize,
    mine_count: usize,
    unveiled_count: usize,
}

impl View for GameState {
    type V = BoardView;

    closed spec fn view(&self) -> BoardView {
        BoardView {
            width: self.dim.0 as int,
            height: self.dim.1 as int,
            cells: self.board@,
            flags: self.flag_count as int,
            unveiled: self.unveiled_count as int,
            mine_count: self.mine_count as int,
        }
    }
}

impl GameState {
    /// A board of `dim.0` by `dim.1` veiled cells.
    pub fn new(dim: (usize, usize), mine_count: usize) -> (r: GameState)
        requires
            dim.0 >= 3,
            dim.1 >= 3,
            dim.0 * dim.1 <= usize::MAX,
        ensures
            r@.wf(),
            r@.width == dim.0,
            r@.height == dim.1,
            r@.mine_count == mine_count,
            r@.flags == 0,
            r@.unveiled == 0,
            forall|i: int| 0 <= i < r@.area() ==> #[trigger] r@.cells[i] == ICellState::Veiled,
    {
        let area: usize = dim.0 * dim.1;
        let mut board: Vec<ICellState> = Vec::new();
        let mut i: usize = 0;
        while i < area
            invariant
                i <= area,
                board@.len() == i,
                forall|j: int| 0 <= j < i ==> #[trigger] board@[j] == ICellState::Veiled,
            decreases area - i,
        {
            board.push(ICellState::Veiled);
            i = i + 1;
        }
        let r = GameState { board, dim, flag_count: 0, mine_count, unveiled_count: 0 };
        proof {
            let v = r@;
            lemma_count_mono(v.area(), v.flagged(), |j: int| false);
            lemma_count_mono(v.area(), v.unveiled_cells(), |j: int| false);
            lemma_count_zero(v.area());
        }
        r
    }

    /// Veils every cell and zeroes the counters.
    pub fn clear(&mut self)
        requires
            old(self)@.wf(),
        ensures
            final(self)@.wf(),
            final(self)@.width == old(self)@.width,
            final(self)@.height == old(self)@.height,
            final(self)@.mine_count == old(self)@.mine_count,
            final(self)@.flags == 0,
            final(self)@.unveiled == 0,
            forall|i: int| 0 <= i < final(self)@.area() ==> #[trigger] final(self)@.cells[i] == ICellState::Veiled,
    {
        let area: usize = self.dim.0 * self.dim.1;
        let ghost v0 = self@;
        let mut i: usize = 0;
        while i < area
            invariant
                v0 == old(self)@,
                v0.wf(),
                self.dim == old(self).dim,
                self.mine_count == old(self).mine_count,
                area == v0.area(),
                i <= area,
                self.board@.len() == area,
                forall|j: int| 0 <= j < i ==> #[trigger] self.board@[j] == ICellState::Veiled,
            decreases area - i,
        {
            self.board.set(i, ICellState::Veiled);
            i = i + 1;
        }
        self.flag_count = 0;
        self.unveiled_count = 0;
        proof {
            let v = self@;
            lemma_count_mono(v.area(), v.flagged(), |j: int| false);
            lemma_count_mono(v.area(), v.unveiled_cells(), |j: int| false);
            lemma_count_zero(v.area());
        }
    }

    pub fn get_dim(&self) -> (r: (usize, usize))
        ensures
            r.0 == self@.width,
            r.1 == self@.height,
    {
        self.dim
    }

    pub fn get_flag_count(&self) -> (r: usize)
        ensures
            r == self@.flags,
    {
        self.flag_count
    }

    pub fn get_unveiled_count(&self) -> (r: usize)
        ensures
            r == self@.unveiled,
    {
        self.unveiled_count
    }

    pub fn get_mine_count(&self) -> (r: usize)
        ensures
            r == self@.mine_count,
    {
        self.mine_count
    }

    /// Status of cell `pos`.
    pub fn get(&self, pos: (usize, usize)) -> (r: ICellState)
        requires
            self@.wf(),
            in_grid(self@.width, self@.height, pos.0 as int, pos.1 as int),
        ensures
            r == self@.status_at(pos.0 as int, pos.1 as int),
    {
        proof {
            lemma_index_bounds(self@.width, self@.height, pos.0 as int, pos.1 as int);
        }
        self.board[pos.1 * self.dim.0 + pos.0]
    }

    /// Sets cell `pos` to `state`; the counters follow the change, and an unchanged
    /// status leaves everything as it was.
    pub fn set(&mut self, pos: (usize, usize), state: ICellState)
        requires
            old(self)@.wf(),
            in_grid(old(self)@.width, old(self)@.height, pos.0 as int, pos.1 as int),
        ensures
            final(self)@ == old(self)@.with_cell(pos.0 as int, pos.1 as int, state),
            final(self)@.wf(),
            final(self)@.cells == old(self)@.cells.update(
                cell_index(old(self)@.width, pos.0 as int, pos.1 as int),
                state,
            ),
            final(self)@.flags == old(self)@.flags - (if old(self)@.status_at(pos.0 as int, pos.1 as int) is Flagged { 1int } else { 0int }) + (if state is Flagged { 1int } else { 0int }),
            final(self)@.unveiled == old(self)@.unveiled - (if old(self)@.status_at(pos.0 as int, pos.1 as int).is_unveiled() { 1int } else { 0int }) + (if state.is_unveiled() { 1int } else { 0int }),
    {
        let ghost v0 = self@;
        proof {
            lemma_index_bounds(v0.width, v0.height, pos.0 as int, pos.1 as int);
        }
        let i: usize = pos.1 * self.dim.0 + pos.0;
        let old_state = self.board[i];
        if old_state == state {
            proof {
                assert(v0.cells.update(i as int, state) =~= v0.cells);
                let c = v0.cells.update(i as int, state);
                lemma_count_mono(v0.area(), |j: int| c[j] is Flagged, v0.flagged());
                lemma_count_mono(v0.area(), v0.flagged(), |j: int| c[j] is Flagged);
                lemma_count_mono(v0.area(), |j: int| c[j].is_unveiled(), v0.unveiled_cells());
                lemma_count_mono(v0.area(), v0.unveiled_cells(), |j: int| c[j].is_unveiled());
            }
            return;
        }
        self.board.set(i, state);
        let ghost c = self.board@;
        proof {
            lemma_count_change(v0.area(), v0.flagged(), |j: int| c[j] is Flagged, i as int);
            lemma_count_change(v0.area(), v0.unveiled_cells(), |j: int| c[j].is_unveiled(), i as int);
            lemma_count_le(v0.area(), |j: int| c[j] is Flagged);
            if old_state.is_unveiled() {
                lemma_count_pos(v0.area(), v0.unveiled_cells(), i as int);
            }
            lemma_count_le(v0.area(), |j: int| c[j].is_unveiled());
        }
        match old_state {
            ICellState::Flagged => {
                self.flag_count = self.flag_count - 1;
            },
            ICellState::Safe(_) | ICellState::DefinitelySafe => {
                self.unveiled_count = self.unveiled_count - 1;
            },
            _ => {},
        }
        match state {
            ICellState::Flagged => {
                self.flag_count = self.flag_count + 1;
            },
            ICellState::Safe(_) | ICellState::DefinitelySafe => {
                self.unveiled_count = self.unveiled_count + 1;
            },
            _ => {},
        }
        proof {
            let v = self@;
            lemma_count_mono(v.area(), v.flagged(), |j: int| c[j] is Flagged);
            lemma_count_mono(v.area(), |j: int| c[j] is Flagged, v.flagged());
            lemma_count_mono(v.area(), v.unveiled_cells(), |j: int| c[j].is_unveiled());
            lemma_count_mono(v.area(), |j: int| c[j].is_unveiled(), v.unveiled_cells());
        }
    }

    /// The `k`-th cell (row-major, `k` in `0..9`) of the 3x3 window centred on `pos`,
    /// when it lies on the board.
    pub fn window_cell(&self, pos: (usize, usize), k: usize) -> (r: Option<(usize, usize)>)
        requires
            self@.wf(),
            in_grid(self@.width, self@.height, pos.0 as int, pos.1 as int),
            k < 9,
        ensures
            in_grid(self@.width, self@.height, pos.0 + window_dx(k as int), pos.1 + window_dy(k as int)) <==> r is Some,
            r is Some ==> r->Some_0.0 == pos.0 + window_dx(k as int) && r->Some_0.1 == pos.1 + window_dy(k as int),
    {
        proof {
            lemma_grid_shape(self@.width, self@.height);
        }
        if pos.0 + k % 3 >= 1 && pos.1 + k / 3 >= 1 {
            let x: usize = pos.0 + k % 3 - 1;
            let y: usize = pos.1 + k / 3 - 1;
            if x < self.dim.0 && y < self.dim.1 {
                return Some((x, y));
            }
        }
        None
    }

    /// Classifies the neighbourhood of `pos` by the two counting rules.
    pub fn safe_cell_environment(&self, pos: (usize, usize)) -> (r: CellEnvironment)
        requires
            self@.wf(),
            in_grid(self@.width, self@.height, pos.0 as int, pos.1 as int),
        ensures
            r == self@.classify(pos.0 as int, pos.1 as int),
    {
        let n = match self.get(pos) {
            ICellState::Safe(n) => n,
            _ => {
                return CellEnvironment::Unsure;
            },
        };
        let ghost v = self@;
        let mut flag_count: usize = 0;
        let mut potential_mine_count: usize = 0;
        let mut k: usize = 0;
        while k < 9
            invariant
                v == self@,
                v.wf(),
                in_grid(v.width, v.height, pos.0 as int, pos.1 as int),
                k <= 9,
                flag_count == count_around(k as int, pos.0 as int, pos.1 as int, v.flag_at()),
                potential_mine_count == count_around(
                    k as int,
                    pos.0 as int,
                    pos.1 as int,
                    v.potential_at(),
                ),
            decreases 9 - k,
        {
            proof {
                lemma_around_le(k as int, pos.0 as int, pos.1 as int, v.flag_at());
                lemma_around_le(k as int, pos.0 as int, pos.1 as int, v.potential_at());
            }
            if k != 4 {
                if let Some(npos) = self.window_cell(pos, k) {
                    match self.get(npos) {
                        ICellState::Veiled | ICellState::Mine => {
                            potential_mine_count = potential_mine_count + 1;
                        },
                        ICellState::Flagged => {
                            flag_count = flag_count + 1;
                            potential_mine_count = potential_mine_count + 1;
                        },
                        _ => {},
                    }
                }
            }
            k = k + 1;
        }
        if flag_count == n {
            CellEnvironment::AllSafe
        } else if potential_mine_count == n {
            CellEnvironment::AllMines
        } else if flag_count > n || potential_mine_count < n {
            CellEnvironment::Impossible
        } else {
            CellEnvironment::Unsure
        }
    }

    /// Whether supposing `pos` safe contradicts what the counting rules force nearby:
    /// an independent copy of the board gets `pos` marked `DefinitelySafe` and
    /// propagation runs on the copy, which is then dropped.
    pub fn is_definitely_mined(&self, pos: (usize, usize)) -> (r: bool)
        requires
            self@.wf(),
            in_grid(self@.width, self@.height, pos.0 as int, pos.1 as int),
        ensures
            exists|fin: BoardView, ok: bool|
                #[trigger] self@.with_cell(pos.0 as int, pos.1 as int, ICellState::DefinitelySafe).propagation(
                    pos.0 as int,
                    pos.1 as int,
                    fin,
                    ok,
                ) && r == !ok,
    {
        let mut hypothetical = self.snapshot();
        hypothetical.set(pos, ICellState::DefinitelySafe);
        let ghost start = hypothetical@;
        let ok = hypothetical.environment_propagate(pos);
        assert(start.propagation(pos.0 as int, pos.1 as int, hypothetical@, ok));
        !ok
    }

    /// Propagates forced conclusions outward from `center`: every numbered cell in the
    /// window of `center`, and then in the window of every cell marked on the way, is
    /// classified; where all its veiled neighbours must be safe they are marked
    /// `DefinitelySafe`, where all must be mines they are flagged. Returns `false` on the
    /// first contradiction or insane board.
    ///
    /// The centre's own cell is classified too. Every caller has just marked the centre
    /// (as `DefinitelySafe`), and a marked cell always classifies as `Unsure`, so this
    /// changes nothing there; it lets the region examined be stated simply as the
    /// windows of the centre and of the cells marked.
    pub fn environment_propagate(&mut self, center: (usize, usize)) -> (r: bool)
        requires
            old(self)@.wf(),
            in_grid(old(self)@.width, old(self)@.height, center.0 as int, center.1 as int),
        ensures
            old(self)@.propagation(center.0 as int, center.1 as int, final(self)@, r),
            !old(self)@.sane() ==> !r && final(self)@ == old(self)@,
    {
        let ghost s = self@;
        let ghost cx = center.0 as int;
        let ghost cy = center.1 as int;
        if !self.sanity_check() {
            return false;
        }
        let mut work: Vec<(usize, usize)> = Vec::new();
        work.push(center);
        proof {
            assert forall|x: int, y: int|
                in_grid(s.width, s.height, x, y) && self@.examined(s, cx, cy, x, y) implies #[trigger] self@.settled(x, y) || exists|t: int|
                0 <= t < work@.len() && touching(x, y, work@[t].0 as int, work@[t].1 as int) by {
                if !touching(x, y, cx, cy) {
                    let (mx, my) = choose|mx: int, my: int|
                        in_grid(s.width, s.height, mx, my) && #[trigger] self@.status_at(mx, my)
                            != s.status_at(mx, my) && touching(x, y, mx, my);
                    assert(false);
                }
                assert(work@[0] == center);
            }
        }
        while work.len() > 0
            invariant
                s == old(self)@,
                s.sane(),
                cx == center.0 as int,
                cy == center.1 as int,
                s.wf(),
                in_grid(s.width, s.height, cx, cy),
                self@.wf(),
                self@.width == s.width,
                self@.height == s.height,
                self@.mine_count == s.mine_count,
                self@.only_marks(s),
                self@.sane(),
                forall|t: int|
                    0 <= t < work@.len() ==> in_grid(
                        s.width,
                        s.height,
                        #[trigger] work@[t].0 as int,
                        work@[t].1 as int,
                    ) && (work@[t] == center || self@.status_at(work@[t].0 as int, work@[t].1 as int)
                        != s.status_at(work@[t].0 as int, work@[t].1 as int)),
                forall|x: int, y: int|
                    in_grid(s.width, s.height, x, y) && self@.examined(s, cx, cy, x, y) ==> #[trigger] self@.settled(x, y) || exists|t: int|
                        0 <= t < work@.len() && touching(x, y, work@[t].0 as int, work@[t].1 as int),
                s.no_number_around(cx, cy) ==> self@.cells == s.cells && forall|t: int|
                    0 <= t < work@.len() ==> #[trigger] work@[t] == center,
            decreases self@.veiled_count() + work@.len(),
        {
            let ghost measure = self@.veiled_count() + work@.len();
            let ghost w_full = work@;
            let c = work.pop().unwrap();
            let ghost ccx = c.0 as int;
            let ghost ccy = c.1 as int;
            proof {
                assert(w_full[w_full.len() - 1] == c);
                assert forall|t: int| 0 <= t < work@.len() implies #[trigger] work@[t] == w_full[t] by {}
                assert forall|x: int, y: int|
                    in_grid(s.width, s.height, x, y) && self@.examined(s, cx, cy, x, y) implies #[trigger] self@.settled(x, y) || (exists|t: int|
                    0 <= t < work@.len() && touching(x, y, work@[t].0 as int, work@[t].1 as int))
                    || (touching(x, y, ccx, ccy) && window_slot(ccx, ccy, x, y) >= 0) by {
                    if !self@.settled(x, y) {
                        let t = choose|t: int|
                            0 <= t < w_full.len() && touching(x, y, w_full[t].0 as int, w_full[t].1 as int);
                        if t == w_full.len() - 1 {
                            lemma_slot_inverse(ccx, ccy, x, y);
                        } else {
                            assert(work@[t] == w_full[t]);
                        }
                    }
                }
            }
            let mut k: usize = 0;
            while k < 9
                invariant
                    s == old(self)@,
                    s.sane(),
                s.sane(),
                    cx == center.0 as int,
                    cy == center.1 as int,
                    ccx == c.0 as int,
                    ccy == c.1 as int,
                    s.wf(),
                    in_grid(s.width, s.height, cx, cy),
                    in_grid(s.width, s.height, ccx, ccy),
                    c == center || self@.status_at(ccx, ccy) != s.status_at(ccx, ccy),
                    k <= 9,
                    self@.wf(),
                    self@.width == s.width,
                    self@.height == s.height,
                    self@.mine_count == s.mine_count,
                    self@.only_marks(s),
                    self@.sane(),
                    forall|t: int|
                        0 <= t < work@.len() ==> in_grid(
                            s.width,
                            s.height,
                            #[trigger] work@[t].0 as int,
                            work@[t].1 as int,
                        ) && (work@[t] == center || self@.status_at(
                            work@[t].0 as int,
                            work@[t].1 as int,
                        ) != s.status_at(work@[t].0 as int, work@[t].1 as int)),
                    forall|x: int, y: int|
                        in_grid(s.width, s.height, x, y) && self@.examined(s, cx, cy, x, y) ==> #[trigger] self@.settled(x, y) || (exists|t: int|
                            0 <= t < work@.len() && touching(
                                x,
                                y,
                                work@[t].0 as int,
                                work@[t].1 as int,
                            )) || (touching(x, y, ccx, ccy) && window_slot(ccx, ccy, x, y) >= k),
                    s.no_number_around(cx, cy) ==> self@.cells == s.cells && c == center && forall|t: int|
                        0 <= t < work@.len() ==> #[trigger] work@[t] == center,
                    self@.veiled_count() + work@.len() < measure,
                decreases 9 - k,
            {
                if let Some(n) = self.window_cell(c, k) {
                    let ghost nx = n.0 as int;
                    let ghost ny = n.1 as int;
                    let ghost before = self@;
                    let ghost wb = work@;
                    proof {
                        lemma_window_slot(ccx, ccy, k as int);
                    }
                    let env = self.safe_cell_environment(n);
                    let mut ok = true;
                    match env {
                        CellEnvironment::Impossible => {
                            proof {
                                assert(self@.examined(s, cx, cy, nx, ny));
                            }
                            return false;
                        },
                        CellEnvironment::AllSafe => {
                            ok = self.mark_environment(n, ICellState::DefinitelySafe, &mut work);
                        },
                        CellEnvironment::AllMines => {
                            ok = self.mark_environment(n, ICellState::Flagged, &mut work);
                        },
                        CellEnvironment::Unsure => {},
                    }
                    if !ok {
                        return false;
                    }
                    proof {
                        let after = self@;
                        let wa = work@;
                        assert forall|t: int| 0 <= t < wb.len() implies #[trigger] wa[t] == wb[t] by {
                            assert(wa.subrange(0, wb.len() as int)[t] == wb[t]);
                        }
                        // marks compose
                        assert forall|i: int|
                            0 <= i < after.area() && #[trigger] after.cells[i] != s.cells[i] implies s.cells[i] is Veiled
                            && (after.cells[i] is DefinitelySafe || after.cells[i] is Flagged) by {
                            if after.cells[i] != before.cells[i] {
                                assert(before.cells[i] is Veiled);
                                assert(before.cells[i] == s.cells[i]);
                            } else {
                                assert(before.cells[i] != s.cells[i]);
                            }
                        }
                        // a cell changed relative to the start stays changed
                        assert forall|a: int, b: int|
                            in_grid(s.width, s.height, a, b) && #[trigger] before.status_at(a, b)
                                != s.status_at(a, b) implies after.status_at(a, b) != s.status_at(a, b)
                                && after.status_at(a, b) == before.status_at(a, b) by {
                            lemma_index_bounds(s.width, s.height, a, b);
                            let i = cell_index(s.width, a, b);
                            assert(before.cells[i] != s.cells[i]);
                            if after.cells[i] != before.cells[i] {
                                assert(before.cells[i] is Veiled);
                            }
                        }
                        assert forall|a: int, b: int|
                            in_grid(s.width, s.height, a, b) && #[trigger] after.status_at(a, b)
                                != before.status_at(a, b) implies after.status_at(a, b) != s.status_at(a, b) by {
                            lemma_index_bounds(s.width, s.height, a, b);
                            let i = cell_index(s.width, a, b);
                            assert(after.cells[i] != before.cells[i]);
                            assert(before.cells[i] is Veiled);
                            if before.cells[i] != s.cells[i] {
                                assert(!(before.cells[i] is Veiled));
                            }
                        }
                        assert forall|t: int|
                            0 <= t < wa.len() implies in_grid(
                            s.width,
                            s.height,
                            #[trigger] wa[t].0 as int,
                            wa[t].1 as int,
                        ) && (wa[t] == center || after.status_at(wa[t].0 as int, wa[t].1 as int)
                            != s.status_at(wa[t].0 as int, wa[t].1 as int)) by {
                            if t < wb.len() {
                                assert(wa[t] == wb[t]);
                                if wb[t] != center {
                                    assert(before.status_at(wb[t].0 as int, wb[t].1 as int) != s.status_at(wb[t].0 as int, wb[t].1 as int));
                                }
                            }
                        }
                        assert forall|x: int, y: int|
                            in_grid(s.width, s.height, x, y) && after.examined(s, cx, cy, x, y) implies #[trigger] after.settled(x, y) || (exists|t: int|
                            0 <= t < wa.len() && touching(x, y, wa[t].0 as int, wa[t].1 as int))
                            || (touching(x, y, ccx, ccy) && window_slot(ccx, ccy, x, y) >= k + 1) by {
                            if exists|a: int, b: int|
                                in_grid(s.width, s.height, a, b) && #[trigger] after.status_at(a, b)
                                    != before.status_at(a, b) && touching(x, y, a, b) {
                                let (a, b) = choose|a: int, b: int|
                                    in_grid(s.width, s.height, a, b) && #[trigger] after.status_at(a, b)
                                        != before.status_at(a, b) && touching(x, y, a, b);
                                let t = choose|t: int|
                                    wb.len() <= t < wa.len() && wa[t].0 == a && wa[t].1 == b;
                                assert(touching(x, y, wa[t].0 as int, wa[t].1 as int));
                            } else {
                                lemma_settled_frame(before, after, x, y);
                                if !touching(x, y, cx, cy) {
                                    let (mx, my) = choose|mx: int, my: int|
                                        in_grid(s.width, s.height, mx, my) && #[trigger] after.status_at(mx, my)
                                            != s.status_at(mx, my) && touching(x, y, mx, my);
                                    assert(before.status_at(mx, my) != s.status_at(mx, my));
                                }
                                assert(before.examined(s, cx, cy, x, y));
                                if exists|t: int|
                                    0 <= t < wb.len() && touching(x, y, wb[t].0 as int, wb[t].1 as int) {
                                    let t = choose|t: int|
                                        0 <= t < wb.len() && touching(x, y, wb[t].0 as int, wb[t].1 as int);
                                    assert(wa[t] == wb[t]);
                                } else if touching(x, y, ccx, ccy) && window_slot(ccx, ccy, x, y) == k {
                                    lemma_slot_inverse(ccx, ccy, x, y);
                                    assert(x == nx && y == ny);
                                }
                            }
                        }
                    }
                }
                k = k + 1;
            }
        }
        proof {
            assert forall|x: int, y: int|
                in_grid(s.width, s.height, x, y) && self@.examined(s, cx, cy, x, y) implies #[trigger] self@.classify(x, y)
                != CellEnvironment::Impossible by {
                assert(self@.settled(x, y));
            }
        }
        true
    }

    /// Gives `mark` to every veiled neighbour of `pos` and appends each of them to `work`.
    /// Stops with `false` as soon as the board is no longer sane.
    fn mark_environment(
        &mut self,
        pos: (usize, usize),
        mark: ICellState,
        work: &mut Vec<(usize, usize)>,
    ) -> (r: bool)
        requires
            old(self)@.wf(),
            old(self)@.sane(),
            in_grid(old(self)@.width, old(self)@.height, pos.0 as int, pos.1 as int),
            mark is DefinitelySafe || mark is Flagged,
            mark is DefinitelySafe ==> old(self)@.classify(pos.0 as int, pos.1 as int)
                == CellEnvironment::AllSafe,
            mark is Flagged ==> old(self)@.classify(pos.0 as int, pos.1 as int)
                == CellEnvironment::AllMines,
        ensures
            final(self)@.wf(),
            final(self)@.width == old(self)@.width,
            final(self)@.height == old(self)@.height,
            final(self)@.mine_count == old(self)@.mine_count,
            final(self)@.only_marks(old(self)@),
            final(work)@.len() >= old(work)@.len(),
            final(work)@.subrange(0, old(work)@.len() as int) == old(work)@,
            forall|t: int|
                old(work)@.len() <= t < final(work)@.len() ==> in_grid(
                    old(self)@.width,
                    old(self)@.height,
                    #[trigger] final(work)@[t].0 as int,
                    final(work)@[t].1 as int,
                ) && final(self)@.status_at(final(work)@[t].0 as int, final(work)@[t].1 as int)
                    != old(self)@.status_at(final(work)@[t].0 as int, final(work)@[t].1 as int),
            forall|a: int, b: int|
                in_grid(old(self)@.width, old(self)@.height, a, b) && #[trigger] final(self)@.status_at(a, b)
                    != old(self)@.status_at(a, b) ==> exists|t: int|
                    old(work)@.len() <= t < final(work)@.len() && final(work)@[t].0 == a
                        && final(work)@[t].1 == b,
            final(self)@.veiled_count() + final(work)@.len() == old(self)@.veiled_count() + old(
                work,
            )@.len(),
            r == final(self)@.sane(),
            r ==> final(self)@.classify(pos.0 as int, pos.1 as int) != CellEnvironment::Impossible,
            r ==> final(self)@.no_veiled_around(pos.0 as int, pos.1 as int),
            forall|a: int, b: int|
                in_grid(old(self)@.width, old(self)@.height, a, b) && #[trigger] final(self)@.status_at(a, b)
                    != old(self)@.status_at(a, b) ==> final(self)@.status_at(a, b) == mark,
    {
        let ghost b0 = self@;
        let ghost w0 = work@;
        let ghost px = pos.0 as int;
        let ghost py = pos.1 as int;
        let mut j: usize = 0;
        while j < 9
            invariant
                b0 == old(self)@,
                w0 == old(work)@,
                px == pos.0 as int,
                py == pos.1 as int,
                b0.wf(),
                in_grid(b0.width, b0.height, px, py),
                b0.status_at(px, py) is Safe,
                mark is DefinitelySafe || mark is Flagged,
                mark is DefinitelySafe ==> b0.classify(px, py) == CellEnvironment::AllSafe,
                mark is Flagged ==> b0.classify(px, py) == CellEnvironment::AllMines,
                self@.wf(),
                self@.width == b0.width,
                self@.height == b0.height,
                self@.mine_count == b0.mine_count,
                self@.only_marks(b0),
                self@.sane(),
                self@.status_at(px, py) == b0.status_at(px, py),
                mark is DefinitelySafe ==> self@.flags_around(px, py) == b0.flags_around(px, py),
                mark is Flagged ==> self@.potential_around(px, py) == b0.potential_around(px, py),
                work@.len() >= w0.len(),
                work@.subrange(0, w0.len() as int) == w0,
                forall|t: int|
                    w0.len() <= t < work@.len() ==> in_grid(
                        b0.width,
                        b0.height,
                        #[trigger] work@[t].0 as int,
                        work@[t].1 as int,
                    ) && self@.status_at(work@[t].0 as int, work@[t].1 as int) != b0.status_at(
                        work@[t].0 as int,
                        work@[t].1 as int,
                    ),
                forall|a: int, b: int|
                    in_grid(b0.width, b0.height, a, b) && #[trigger] self@.status_at(a, b)
                        != b0.status_at(a, b) ==> exists|t: int|
                        w0.len() <= t < work@.len() && work@[t].0 == a && work@[t].1 == b,
                self@.veiled_count() + work@.len() == b0.veiled_count() + w0.len(),
                j <= 9,
                forall|a: int, b: int|
                    in_grid(b0.width, b0.height, a, b) && #[trigger] self@.status_at(a, b)
                        != b0.status_at(a, b) ==> self@.status_at(a, b) == mark,
                forall|a: int, b: int|
                    in_grid(b0.width, b0.height, a, b) && touching(a, b, px, py) && window_slot(px, py, a, b)
                        < j ==> !(#[trigger] self@.status_at(a, b) is Veiled),
            decreases 9 - j,
        {
            if j != 4 {
                if let Some(m) = self.window_cell(pos, j) {
                    if self.get(m) == ICellState::Veiled {
                        let ghost before = self@;
                        let ghost wb = work@;
                        self.set(m, mark);
                        work.push(m);
                        proof {
                            let after = self@;
                            assert forall|a: int, b: int|
                                in_grid(b0.width, b0.height, a, b) && #[trigger] after.status_at(a, b)
                                    != b0.status_at(a, b) implies after.status_at(a, b) == mark by {
                                lemma_status_other(before, after, m.0 as int, m.1 as int, mark, a, b);
                            }
                            assert forall|a: int, b: int|
                                in_grid(b0.width, b0.height, a, b) && touching(a, b, px, py)
                                    && window_slot(px, py, a, b) < j implies !(#[trigger] after.status_at(a, b) is Veiled) by {
                                lemma_status_other(before, after, m.0 as int, m.1 as int, mark, a, b);
                            }
                            let mx = m.0 as int;
                            let my = m.1 as int;
                            lemma_window_slot(px, py, j as int);
                            lemma_index_bounds(b0.width, b0.height, mx, my);
                            lemma_count_change(
                                b0.area(),
                                before.veiled(),
                                after.veiled(),
                                cell_index(b0.width, mx, my),
                            );
                            lemma_mark_counts(before, after, px, py, mx, my, mark);
                            lemma_status_other(before, after, mx, my, mark, px, py);
                            assert forall|i: int|
                                0 <= i < after.area() && #[trigger] after.cells[i] != b0.cells[i] implies b0.cells[i] is Veiled
                                && (after.cells[i] is DefinitelySafe || after.cells[i] is Flagged) by {
                                if i != cell_index(b0.width, mx, my) {
                                    assert(before.cells[i] == after.cells[i]);
                                }
                            }
                            assert(work@.subrange(0, w0.len() as int) =~= w0) by {
                                assert(work@ == wb.push(m));
                                assert forall|t: int| 0 <= t < w0.len() implies work@[t] == w0[t] by {
                                    assert(wb.subrange(0, w0.len() as int)[t] == w0[t]);
                                }
                            }
                            assert forall|t: int| w0.len() <= t < work@.len() implies in_grid(
                                b0.width,
                                b0.height,
                                #[trigger] work@[t].0 as int,
                                work@[t].1 as int,
                            ) && after.status_at(work@[t].0 as int, work@[t].1 as int)
                                != b0.status_at(work@[t].0 as int, work@[t].1 as int) by {
                                if t < wb.len() {
                                    assert(work@[t] == wb[t]);
                                    lemma_status_other(
                                        before,
                                        after,
                                        mx,
                                        my,
                                        mark,
                                        wb[t].0 as int,
                                        wb[t].1 as int,
                                    );
                                } else {
                                    lemma_status_other(before, after, mx, my, mark, mx, my);
                                }
                            }
                            assert forall|a: int, b: int|
                                in_grid(b0.width, b0.height, a, b) && #[trigger] after.status_at(a, b)
                                    != b0.status_at(a, b) implies exists|t: int|
                                w0.len() <= t < work@.len() && work@[t].0 == a && work@[t].1
                                    == b by {
                                lemma_status_other(before, after, mx, my, mark, a, b);
                                if a == mx && b == my {
                                    assert(work@[wb.len() as int] == m);
                                } else {
                                    assert(before.status_at(a, b) != b0.status_at(a, b));
                                    let t = choose|t: int|
                                        w0.len() <= t < wb.len() && wb[t].0 == a && wb[t].1 == b;
                                    assert(work@[t] == wb[t]);
                                }
                            }
                        }
                        if !self.sanity_check() {
                            return false;
                        }
                    }
                }
            }
            proof {
                lemma_window_slot(px, py, j as int);
                let cur = self@;
                assert forall|a: int, b: int|
                    in_grid(b0.width, b0.height, a, b) && touching(a, b, px, py) && window_slot(px, py, a, b)
                        < j + 1 implies !(#[trigger] cur.status_at(a, b) is Veiled) by {
                    lemma_slot_inverse(px, py, a, b);
                }
            }
            j = j + 1;
        }
        proof {
            lemma_flags_le_potential(self@, px, py);
        }
        true
    }

    /// Checks the two counter invariants.
    pub fn sanity_check(&self) -> (r: bool)
        requires
            self@.wf(),
        ensures
            r == self@.sane(),
    {
        if self.flag_count > self.mine_count {
            return false;
        }
        proof {
            lemma_count_le(self@.area(), self@.unveiled_cells());
        }
        let area: usize = self.dim.0 * self.dim.1;
        if self.mine_count > area || self.unveiled_count > area - self.mine_count {
            return false;
        }
        true
    }

    /// An independent copy for speculation.
    pub fn snapshot(&self) -> (r: GameState)
        ensures
            r@ == self@,
    {
        let mut board: Vec<ICellState> = Vec::new();
        let mut i: usize = 0;
        while i < self.board.len()
            invariant
                i <= self.board@.len(),
                board@ == self.board@.subrange(0, i as int),
            decreases self.board@.len() - i,
        {
            board.push(self.board[i]);
            i = i + 1;
        }
        assert(board@ =~= self.board@);
        GameState {
            board,
            dim: self.dim,
            flag_count: self.flag_count,
            mine_count: self.mine_count,
            unveiled_count: self.unveiled_count,
        }
    }
}

} // verus!
