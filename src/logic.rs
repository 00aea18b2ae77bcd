//! The game controller: player actions, cascading reveal, assisted play and the
//! stream of cell updates for the display.

use vstd::prelude::*;
use crate::board::{BoardView, CellEnvironment, GameState, ICellState};
use crate::grid::{
    cell_index, in_grid, lemma_count_change, lemma_count_complement, lemma_count_mono, lemma_grid_shape, lemma_index_bounds, lemma_index_injective, lemma_index_position, lemma_slot_inverse, lemma_window_slot, touching, window_slot,
};
use crate::game::{lemma_next_cell, CellLabel, Game, GameView};

verus! {

/// What the display shows for a cell.
#[derive(Clone, Copy, Debug, PartialEq, Eq, Structural)]
pub enum CellState {
    Veiled,
    Flagged,
    Mine,
    Safe(usize),
}

/// Where a session stands.
#[derive(Clone, Copy, Debug, PartialEq, Eq, Structural)]
pub enum Outcome {
    InProgress,
    Won,
    Lost,
}

/// Cell `pos` now shows `state`.
#[derive(Clone, Copy, Debug, PartialEq, Eq)]
pub struct UIUpdate {
    pub pos: (usize, usize),
    pub state: CellState,
}

/// Pending work of one player action, kept on an explicit stack.
enum Task {
    /// Reveal the cell if it is veiled.
    Reveal((usize, usize)),
    /// Flag the cell if it is veiled.
    Flag((usize, usize)),
    /// Chord every cell of the 3x3 window around the cell.
    Scan((usize, usize)),
    /// Reveal or flag the neighbours of a numbered cell when its count forces them.
    Chord((usize, usize)),
}

spec fn task_weight(t: Task) -> int {
    match t {
        Task::Reveal(_) => 1,
        Task::Flag(_) => 1,
        Task::Chord(_) => 10,
        Task::Scan(_) => 91,
    }
}

spec fn task_pos(t: Task) -> (usize, usize) {
    match t {
        Task::Reveal(p) => p,
        Task::Flag(p) => p,
        Task::Chord(p) => p,
        Task::Scan(p) => p,
    }
}

/// An upper bound on the work a stack of tasks can do before another cell changes.
spec fn stack_weight(s: Seq<Task>) -> int
    decreases s.len(),
{
    if s.len() == 0 {
        0
    } else {
        stack_weight(s.drop_last()) + task_weight(s.last())
    }
}

proof fn lemma_weight_push(s: Seq<Task>, t: Task)
    ensures
        stack_weight(s.push(t)) == stack_weight(s) + task_weight(t),
{
    assert(s.push(t).drop_last() =~= s);
}

proof fn lemma_weight_nonneg(s: Seq<Task>)
    ensures
        stack_weight(s) >= 0,
    decreases s.len(),
{
    if s.len() > 0 {
        lemma_weight_nonneg(s.drop_last());
    }
}

/// One `Mine` update for each mined cell among the first `n`, in row-major order.
pub open spec fn mine_events(g: GameView, n: int) -> Seq<UIUpdate>
    decreases n,
{
    if n <= 0 {
        Seq::empty()
    } else if g.mines[n - 1] {
        mine_events(g, n - 1).push(
            UIUpdate {
                pos: (((n - 1) % g.width) as usize, ((n - 1) / g.width) as usize),
                state: CellState::Mine,
            },
        )
    } else {
        mine_events(g, n - 1)
    }
}

/// The public face of an internal status.
pub open spec fn visible(s: ICellState) -> CellState {
    match s {
        ICellState::Veiled => CellState::Veiled,
        ICellState::Flagged => CellState::Flagged,
        ICellState::Mine => CellState::Mine,
        ICellState::Safe(n) => CellState::Safe(n),
        ICellState::DefinitelySafe => CellState::Veiled,
    }
}

/// Mathematical model of a [`Logic`].
pub ghost struct LogicView {
    pub game: GameView,
    pub board: BoardView,
    pub auto_unveil: bool,
    pub touch_mode: bool,
    pub mines_spread: bool,
    pub outcome: Outcome,
    pub events: Seq<UIUpdate>,
}

impl LogicView {
    pub open spec fn area(self) -> int {
        self.game.area()
    }

    pub open spec fn wf(self) -> bool {
        &&& self.game.wf()
        &&& self.board.wf()
        &&& self.board.width == self.game.width
        &&& self.board.height == self.game.height
        &&& self.board.mine_count == self.game.total
        &&& forall|i: int| 0 <= i < self.area() ==> !(#[trigger] self.board.cells[i] is DefinitelySafe)
        &&& forall|i: int|
            0 <= i < self.area() && #[trigger] self.board.cells[i] is Safe ==> !self.game.mines[i]
        &&& forall|i: int|
            0 <= i < self.area() && #[trigger] self.board.cells[i] is Mine ==> self.game.mines[i]
        &&& forall|x: int, y: int|
            in_grid(self.game.width, self.game.height, x, y) && #[trigger] self.board.status_at(x, y) is Safe
                ==> self.board.status_at(x, y) == ICellState::Safe(
                self.game.mines_around(x, y) as usize,
            )
        &&& !self.mines_spread ==> forall|i: int|
            0 <= i < self.area() ==> !(#[trigger] self.board.cells[i] is Safe)
                && !(self.board.cells[i] is Mine)
        &&& self.mines_spread ==> self.game.unspread == 0
        &&& self.outcome == Outcome::Won ==> forall|i: int|
            0 <= i < self.area() ==> !(#[trigger] self.board.cells[i] is Veiled)
        &&& self.board.unveiled + self.game.total == self.area() ==> self.outcome == Outcome::Won
        &&& self.outcome != Outcome::Lost ==> forall|i: int|
            0 <= i < self.area() ==> !(#[trigger] self.board.cells[i] is Mine)
        &&& self.outcome == Outcome::Won ==> self.board.flags == self.game.total
    }

    /// Every cell that was veiled on `start` and now shows a zero has no veiled
    /// neighbour: the cascade from it went all the way.
    pub open spec fn zeros_cleared(self, start: BoardView) -> bool {
        forall|x: int, y: int, a: int, b: int|
            in_grid(self.game.width, self.game.height, x, y) && start.status_at(x, y) is Veiled
                && #[trigger] self.board.status_at(x, y) == ICellState::Safe(0) && in_grid(
                self.game.width,
                self.game.height,
                a,
                b,
            ) && touching(a, b, x, y) ==> !(#[trigger] self.board.status_at(a, b) is Veiled)
    }

    /// Where the updates appended since `self` that report changed cells end: on the step
    /// that loses, the `Mine` updates of every mine follow them.
    pub open spec fn change_end(self, next: LogicView) -> int {
        if self.outcome != Outcome::Lost && next.outcome == Outcome::Lost {
            next.events.len() - mine_events(next.game, next.area()).len()
        } else {
            next.events.len() as int
        }
    }

    /// The updates appended since `self` report `next` exactly: before the final `Mine`
    /// updates of a loss, each names a cell that changed and shows what it now shows, no
    /// two name the same cell, and every changed cell not now showing a mine has one.
    pub open spec fn shown_by(self, next: LogicView) -> bool {
        &&& self.events.len() <= self.change_end(next)
        &&& forall|j: int|
            self.events.len() <= j < self.change_end(next) ==> in_grid(
                next.game.width,
                next.game.height,
                #[trigger] next.events[j].pos.0 as int,
                next.events[j].pos.1 as int,
            ) && next.events[j].state == visible(
                next.board.status_at(next.events[j].pos.0 as int, next.events[j].pos.1 as int),
            ) && next.board.status_at(next.events[j].pos.0 as int, next.events[j].pos.1 as int)
                != self.board.status_at(next.events[j].pos.0 as int, next.events[j].pos.1 as int)
        &&& forall|j1: int, j2: int|
            self.events.len() <= j1 < j2 < self.change_end(next) ==> #[trigger] next.events[j1].pos
                != #[trigger] next.events[j2].pos
        &&& forall|a: int, b: int|
            in_grid(next.game.width, next.game.height, a, b) && #[trigger] next.board.status_at(a, b)
                != self.board.status_at(a, b) && !(next.board.status_at(a, b) is Mine) ==> exists|j: int|
                self.events.len() <= j < self.change_end(next) && next.events[j].pos == (
                a as usize,
                b as usize,
            )
    }

    /// Every cell veiled on `start` and now showing a number is `(px, py)` or touches a
    /// cell veiled on `start` that now shows a zero.
    pub open spec fn revealed_from(self, start: BoardView, px: int, py: int) -> bool {
        forall|x: int, y: int|
            in_grid(self.game.width, self.game.height, x, y) && start.status_at(x, y) is Veiled
                && #[trigger] self.board.status_at(x, y) is Safe ==> (x == px && y == py) || exists|
                a: int,
                b: int,
            |
                in_grid(self.game.width, self.game.height, a, b) && touching(x, y, a, b)
                    && start.status_at(a, b) is Veiled && #[trigger] self.board.status_at(a, b)
                    == ICellState::Safe(0)
    }

    /// The assist has nothing left to do at `(x, y)`: where the counting rules force all
    /// its neighbours one way, none of them is still veiled.
    pub open spec fn assist_done(self, x: int, y: int) -> bool {
        (self.board.classify(x, y) == CellEnvironment::AllSafe || self.board.classify(x, y)
            == CellEnvironment::AllMines) ==> self.board.no_veiled_around(x, y)
    }

    /// `(x, y)` touches a cell whose status differs from `start`.
    pub open spec fn near_change(self, start: BoardView, x: int, y: int) -> bool {
        exists|a: int, b: int|
            in_grid(self.game.width, self.game.height, a, b) && touching(x, y, a, b)
                && #[trigger] self.board.status_at(a, b) != start.status_at(a, b)
    }

    /// Every cell next to a change since `start` is done for the assist.
    pub open spec fn assisted(self, start: BoardView) -> bool {
        forall|x: int, y: int|
            in_grid(self.game.width, self.game.height, x, y) && #[trigger] self.near_change(start, x, y)
                ==> self.assist_done(x, y)
    }

    /// `self` with veiled cell `pos` flagged and one update saying so.
    pub open spec fn flagged_at(self, pos: (usize, usize)) -> LogicView {
        LogicView {
            board: BoardView {
                cells: self.board.cells.update(
                    cell_index(self.game.width, pos.0 as int, pos.1 as int),
                    ICellState::Flagged,
                ),
                flags: self.board.flags + 1,
                ..self.board
            },
            events: self.events.push(UIUpdate { pos, state: CellState::Flagged }),
            ..self
        }
    }

    /// Every update from index `from` on that shows a number, other than the one for
    /// `(px, py)`, names a cell touching a zero shown by an earlier update from `from` on;
    /// so each revealed cell is reached from `(px, py)` through revealed zeros.
    pub open spec fn reveal_chain(self, from: int, px: int, py: int) -> bool {
        forall|j: int|
            from <= j < self.events.len() && #[trigger] self.events[j].state is Safe && (
            self.events[j].pos.0 as int != px || self.events[j].pos.1 as int != py) ==> exists|k: int|
                from <= k < j && self.events[k].state == CellState::Safe(0) && touching(
                    self.events[j].pos.0 as int,
                    self.events[j].pos.1 as int,
                    self.events[k].pos.0 as int,
                    self.events[k].pos.1 as int,
                )
    }

    /// Every flag lies on a mine.
    pub open spec fn flags_correct(self) -> bool {
        forall|i: int| 0 <= i < self.area() && #[trigger] self.board.cells[i] is Flagged ==> self.game.mines[i]
    }

    pub open spec fn with_events(self, events: Seq<UIUpdate>) -> LogicView {
        LogicView { events, ..self }
    }

    /// What every step of play keeps: well-formedness and the configuration; only veiled
    /// cells change; updates are only appended; an outcome, once reached, stays; and the
    /// step that loses ends the update stream with every mine.
    pub open spec fn advances(self, next: LogicView) -> bool {
        &&& next.wf()
        &&& next.game.width == self.game.width
        &&& next.game.height == self.game.height
        &&& next.game.total == self.game.total
        &&& next.auto_unveil == self.auto_unveil
        &&& next.touch_mode == self.touch_mode
        &&& forall|i: int|
            0 <= i < self.area() && #[trigger] next.board.cells[i] != self.board.cells[i]
                ==> self.board.cells[i] is Veiled
        &&& extends(self.events, next.events)
        &&& self.outcome != Outcome::InProgress ==> next == self
        &&& self.mines_spread ==> next.mines_spread && next.game == self.game
        &&& self.shown_by(next)
        &&& self.outcome != Outcome::Lost && next.outcome == Outcome::Lost ==> exists|a: int, b: int|
            in_grid(self.game.width, self.game.height, a, b) && self.board.status_at(a, b) is Veiled
                && #[trigger] next.board.status_at(a, b) is Mine
        &&& self.outcome != Outcome::Lost && next.outcome == Outcome::Lost ==> next.events.len()
            >= mine_events(next.game, next.area()).len() && next.events.subrange(
            next.events.len() - mine_events(next.game, next.area()).len(),
            next.events.len() as int,
        ) == mine_events(next.game, next.area())
    }

}

/// Every task is a reveal of `(px, py)` or of a cell touching a cell veiled on `start`
/// that now shows a zero.
spec fn reveals_from(v: LogicView, start: BoardView, px: int, py: int, stack: Seq<Task>) -> bool {
    forall|t: int|
        0 <= t < stack.len() ==> #[trigger] stack[t] is Reveal && ((task_pos(stack[t]).0 == px
            && task_pos(stack[t]).1 == py) || exists|a: int, b: int|
            in_grid(v.game.width, v.game.height, a, b) && touching(
                task_pos(stack[t]).0 as int,
                task_pos(stack[t]).1 as int,
                a,
                b,
            ) && start.status_at(a, b) is Veiled && #[trigger] v.board.status_at(a, b)
                == ICellState::Safe(0))
}

/// Work is still pending that will settle `(x, y)` for the assist: a scan around a cell
/// touching it, a chord of it, or a reveal or flag of each of its veiled neighbours.
spec fn assist_pending(v: LogicView, stack: Seq<Task>, x: int, y: int) -> bool {
    ||| exists|t: int|
        0 <= t < stack.len() && #[trigger] stack[t] is Scan && touching(
            x,
            y,
            task_pos(stack[t]).0 as int,
            task_pos(stack[t]).1 as int,
        )
    ||| exists|t: int| 0 <= t < stack.len() && stack[t] == Task::Chord((x as usize, y as usize))
    ||| forall|a: int, b: int|
        in_grid(v.game.width, v.game.height, a, b) && touching(a, b, x, y)
            && #[trigger] v.board.status_at(a, b) is Veiled ==> exists|t: int|
            0 <= t < stack.len() && (stack[t] == Task::Reveal((a as usize, b as usize)) || stack[t]
                == Task::Flag((a as usize, b as usize)))
}

/// Every cell next to a change since `start` is done for the assist or has work pending.
spec fn assist_covered(v: LogicView, start: BoardView, stack: Seq<Task>) -> bool {
    forall|x: int, y: int|
        in_grid(v.game.width, v.game.height, x, y) && #[trigger] v.near_change(start, x, y)
            ==> v.assist_done(x, y) || assist_pending(v, stack, x, y)
}

/// No pending reveal is of a mined cell, and mines are placed once work is pending.
spec fn reveals_safe(v: LogicView, stack: Seq<Task>) -> bool {
    &&& stack.len() > 0 ==> v.mines_spread
    &&& forall|t: int|
        0 <= t < stack.len() && #[trigger] stack[t] is Reveal ==> !v.game.mine_at(
            task_pos(stack[t]).0 as int,
            task_pos(stack[t]).1 as int,
        )
}

/// Every cell veiled on `start` that now shows a zero has an update from index `from` on.
spec fn zeros_shown(v: LogicView, start: BoardView, from: int) -> bool {
    forall|a: int, b: int|
        in_grid(v.game.width, v.game.height, a, b) && start.status_at(a, b) is Veiled
            && #[trigger] v.board.status_at(a, b) == ICellState::Safe(0) ==> exists|k: int|
            from <= k < v.events.len() && v.events[k].pos == (a as usize, b as usize)
                && v.events[k].state == CellState::Safe(0)
}

/// Every pending reveal is of a cell that is not mined, and every pending flag of a mined
/// cell, unless that cell is no longer veiled; mines are placed once work is pending.
spec fn tasks_sound(v: LogicView, stack: Seq<Task>) -> bool {
    &&& stack.len() > 0 ==> v.mines_spread
    &&& forall|t: int|
        0 <= t < stack.len() && #[trigger] stack[t] is Reveal ==> !v.game.mine_at(
            task_pos(stack[t]).0 as int,
            task_pos(stack[t]).1 as int,
        ) || !(v.board.status_at(task_pos(stack[t]).0 as int, task_pos(stack[t]).1 as int) is Veiled)
    &&& forall|t: int|
        0 <= t < stack.len() && #[trigger] stack[t] is Flag ==> v.game.mine_at(
            task_pos(stack[t]).0 as int,
            task_pos(stack[t]).1 as int,
        ) || !(v.board.status_at(task_pos(stack[t]).0 as int, task_pos(stack[t]).1 as int) is Veiled)
}

/// Every watched cell is no longer veiled, or a reveal or flag of it is pending.
spec fn watched_done(v: LogicView, watch: Set<(int, int)>, stack: Seq<Task>) -> bool {
    forall|a: int, b: int|
        #[trigger] watch.contains((a, b)) && in_grid(v.game.width, v.game.height, a, b) ==> !(
        v.board.status_at(a, b) is Veiled) || exists|t: int|
            0 <= t < stack.len() && (stack[t] == Task::Reveal((a as usize, b as usize)) || stack[t]
                == Task::Flag((a as usize, b as usize)))
}

/// `new` keeps `old` as its prefix.
pub open spec fn extends<T>(old: Seq<T>, new: Seq<T>) -> bool {
    new.len() >= old.len() && forall|i: int| 0 <= i < old.len() ==> #[trigger] new[i] == old[i]
}

/// Every task of `s` from index `from` on names a cell of a `w` by `h` grid.
spec fn tasks_in_grid(w: int, h: int, s: Seq<Task>, from: int) -> bool {
    forall|t: int|
        from <= t < s.len() ==> in_grid(w, h, #[trigger] task_pos(s[t]).0 as int, task_pos(s[t]).1 as int)
}

/// Every cell that was veiled in `start` and now shows a zero has no veiled
/// neighbour left, or a pending reveal for it in `stack`.
spec fn zeros_covered(v: LogicView, start: BoardView, stack: Seq<Task>) -> bool {
    forall|x: int, y: int, a: int, b: int|
        in_grid(v.game.width, v.game.height, x, y) && start.status_at(x, y) is Veiled
            && #[trigger] v.board.status_at(x, y) == ICellState::Safe(0) && in_grid(
            v.game.width,
            v.game.height,
            a,
            b,
        ) && touching(a, b, x, y) ==> !(#[trigger] v.board.status_at(a, b) is Veiled)
            || exists|t: int|
            0 <= t < stack.len() && stack[t] == Task::Reveal((a as usize, b as usize))
}

/// The controller of one session.
pub struct Logic {
    game: Game,
    auto_unveil: bool,
    touch_mode: bool,
    mines_spread: bool,
    game_state: GameState,
    outcome: Outcome,
    ui_updates: Vec<UIUpdate>,
}

impl View for Logic {
    type V = LogicView;

    closed spec fn view(&self) -> LogicView {
        LogicView {
            game: self.game@,
            board: self.game_state@,
            auto_unveil: self.auto_unveil,
            touch_mode: self.touch_mode,
            mines_spread: self.mines_spread,
            outcome: self.outcome,
            events: self.ui_updates@,
        }
    }
}

/// The per-cell agreement of board and mine layout survives writing, on a veiled cell,
/// its true label, or a flag.
proof fn lemma_write_cell(v: LogicView, w: LogicView, px: int, py: int, st: ICellState)
    requires
        v.wf(),
        in_grid(v.game.width, v.game.height, px, py),
        v.board.status_at(px, py) is Veiled,
        w.game == v.game,
        w.board.width == v.board.width,
        w.board.height == v.board.height,
        w.board.cells == v.board.cells.update(cell_index(v.game.width, px, py), st),
        st is Flagged || (st is Mine && v.game.mine_at(px, py)) || (st is Safe
            && !v.game.mine_at(px, py) && st == ICellState::Safe(v.game.mines_around(px, py) as usize)),
    ensures
        forall|i: int| 0 <= i < w.area() ==> !(#[trigger] w.board.cells[i] is DefinitelySafe),
        forall|i: int|
            0 <= i < w.area() && #[trigger] w.board.cells[i] is Safe ==> !w.game.mines[i],
        forall|i: int|
            0 <= i < w.area() && #[trigger] w.board.cells[i] is Mine ==> w.game.mines[i],
        forall|x: int, y: int|
            in_grid(w.game.width, w.game.height, x, y) && #[trigger] w.board.status_at(x, y) is Safe
                ==> w.board.status_at(x, y) == ICellState::Safe(w.game.mines_around(x, y) as usize),
        forall|x: int, y: int|
            in_grid(w.game.width, w.game.height, x, y) && (x != px || y != py) ==> #[trigger] w.board.status_at(x, y) == v.board.status_at(x, y),
        w.board.status_at(px, py) == st,
{
    lemma_index_bounds(v.game.width, v.game.height, px, py);
    assert forall|x: int, y: int|
        in_grid(w.game.width, w.game.height, x, y) && (x != px || y != py) implies #[trigger] w.board.status_at(x, y) == v.board.status_at(x, y) by {
        lemma_index_injective(v.game.width, v.game.height, x, y, px, py);
        lemma_index_bounds(v.game.width, v.game.height, x, y);
    }
}

/// Writing a veiled cell lowers the number of veiled cells by one.
proof fn lemma_veiled_drop(b: BoardView, c: BoardView, px: int, py: int, st: ICellState)
    requires
        b.wf(),
        c.width == b.width,
        c.height == b.height,
        in_grid(b.width, b.height, px, py),
        b.status_at(px, py) is Veiled,
        !(st is Veiled),
        c.cells == b.cells.update(cell_index(b.width, px, py), st),
    ensures
        c.veiled_count() + 1 == b.veiled_count(),
{
    lemma_index_bounds(b.width, b.height, px, py);
    lemma_count_change(b.area(), b.veiled(), c.veiled(), cell_index(b.width, px, py));
}

proof fn lemma_advances_trans(a: LogicView, b: LogicView, c: LogicView)
    requires
        a.wf(),
        a.advances(b),
        b.advances(c),
    ensures
        a.advances(c),
{
    assert forall|i: int|
        0 <= i < a.area() && #[trigger] c.board.cells[i] != a.board.cells[i] implies a.board.cells[i] is Veiled by {
        if c.board.cells[i] != b.board.cells[i] {
            assert(b.board.cells[i] is Veiled);
        }
    }
    if a.outcome != Outcome::Lost && c.outcome == Outcome::Lost && b.outcome != Outcome::Lost {
        let (x, y) = choose|x: int, y: int|
            in_grid(b.game.width, b.game.height, x, y) && b.board.status_at(x, y) is Veiled
                && #[trigger] c.board.status_at(x, y) is Mine;
        lemma_index_bounds(a.game.width, a.game.height, x, y);
        let i = cell_index(a.game.width, x, y);
        assert(b.board.cells[i] is Veiled);
        if a.board.cells[i] != b.board.cells[i] {
        }
        assert(a.board.status_at(x, y) is Veiled);
    }
    if b.outcome == Outcome::InProgress {
        lemma_grid_shape(a.game.width, a.game.height);
        let end = b.change_end(c);
        assert(a.change_end(c) == end);
        assert(a.change_end(b) == b.events.len());
        // statuses of the cells named by updates, before and after
        assert forall|j: int| a.events.len() <= j < end implies in_grid(
            c.game.width,
            c.game.height,
            #[trigger] c.events[j].pos.0 as int,
            c.events[j].pos.1 as int,
        ) && c.events[j].state == visible(
            c.board.status_at(c.events[j].pos.0 as int, c.events[j].pos.1 as int),
        ) && c.board.status_at(c.events[j].pos.0 as int, c.events[j].pos.1 as int)
            != a.board.status_at(c.events[j].pos.0 as int, c.events[j].pos.1 as int) by {
            let p = c.events[j].pos;
            if j < b.events.len() {
                assert(c.events[j] == b.events[j]);
                lemma_index_bounds(a.game.width, a.game.height, p.0 as int, p.1 as int);
                let k = cell_index(a.game.width, p.0 as int, p.1 as int);
                assert(a.board.cells[k] is Veiled);
                assert(b.board.cells[k] == c.board.cells[k]);
            } else {
                lemma_index_bounds(a.game.width, a.game.height, p.0 as int, p.1 as int);
                let k = cell_index(a.game.width, p.0 as int, p.1 as int);
                assert(b.board.cells[k] is Veiled);
                if a.board.cells[k] != b.board.cells[k] {
                    assert(a.board.cells[k] is Veiled);
                }
            }
        }
        assert forall|j1: int, j2: int|
            a.events.len() <= j1 < j2 < end implies #[trigger] c.events[j1].pos != #[trigger] c.events[j2].pos by {
            if j2 < b.events.len() {
                assert(c.events[j1] == b.events[j1]);
                assert(c.events[j2] == b.events[j2]);
            } else if j1 >= b.events.len() {
            } else {
                assert(c.events[j1] == b.events[j1]);
                let p = b.events[j1].pos;
                lemma_index_bounds(a.game.width, a.game.height, p.0 as int, p.1 as int);
                let k = cell_index(a.game.width, p.0 as int, p.1 as int);
                assert(a.board.cells[k] is Veiled);
                assert(!(b.board.cells[k] is Veiled));
                let q = c.events[j2].pos;
                assert(b.board.status_at(q.0 as int, q.1 as int) != c.board.status_at(q.0 as int, q.1 as int));
                lemma_index_bounds(a.game.width, a.game.height, q.0 as int, q.1 as int);
                let k2 = cell_index(a.game.width, q.0 as int, q.1 as int);
                assert(b.board.cells[k2] is Veiled);
            }
        }
        assert forall|x: int, y: int|
            in_grid(c.game.width, c.game.height, x, y) && #[trigger] c.board.status_at(x, y)
                != a.board.status_at(x, y) && !(c.board.status_at(x, y) is Mine) implies exists|j: int|
            a.events.len() <= j < end && c.events[j].pos == (x as usize, y as usize) by {
            if c.board.status_at(x, y) == b.board.status_at(x, y) {
                let j = choose|j: int|
                    a.events.len() <= j < b.events.len() && b.events[j].pos == (x as usize, y as usize);
                assert(c.events[j] == b.events[j]);
            }
        }
    }
}

proof fn lemma_covered_empty(v: LogicView, start: BoardView)
    requires
        zeros_covered(v, start, Seq::empty()),
    ensures
        v.zeros_cleared(start),
{
}

/// Losing shows each mined cell exactly once: the `Mine` updates name mined cells in
/// strictly increasing row-major order, and every mined cell is among them.
pub proof fn lemma_mine_events(g: GameView, n: int)
    requires
        g.wf(),
        0 <= n <= g.area(),
    ensures
        forall|j: int|
            0 <= j < mine_events(g, n).len() ==> #[trigger] mine_events(g, n)[j].state
                == CellState::Mine && in_grid(
                g.width,
                g.height,
                mine_events(g, n)[j].pos.0 as int,
                mine_events(g, n)[j].pos.1 as int,
            ) && 0 <= cell_index(g.width, mine_events(g, n)[j].pos.0 as int, mine_events(g, n)[j].pos.1 as int) < n
                && g.mines[cell_index(g.width, mine_events(g, n)[j].pos.0 as int, mine_events(g, n)[j].pos.1 as int)],
        forall|j1: int, j2: int|
            0 <= j1 < j2 < mine_events(g, n).len() ==> cell_index(
                g.width,
                #[trigger] mine_events(g, n)[j1].pos.0 as int,
                mine_events(g, n)[j1].pos.1 as int,
            ) < cell_index(
                g.width,
                #[trigger] mine_events(g, n)[j2].pos.0 as int,
                mine_events(g, n)[j2].pos.1 as int,
            ),
        forall|i: int|
            0 <= i < n && #[trigger] g.mines[i] ==> exists|j: int|
                0 <= j < mine_events(g, n).len() && cell_index(
                    g.width,
                    mine_events(g, n)[j].pos.0 as int,
                    mine_events(g, n)[j].pos.1 as int,
                ) == i,
    decreases n,
{
    if n > 0 {
        lemma_mine_events(g, n - 1);
        let prev = mine_events(g, n - 1);
        let cur = mine_events(g, n);
        let w = g.width;
        let i = n - 1;
        vstd::arithmetic::div_mod::lemma_fundamental_div_mod(i, w);
        assert(i / w < g.height) by {
            vstd::arithmetic::div_mod::lemma_div_is_ordered(i, g.area() - 1, w);
            assert(g.area() - 1 == (g.height - 1) * w + (w - 1)) by (nonlinear_arith)
                requires
                    g.area() == w * g.height,
            ;
            vstd::arithmetic::div_mod::lemma_fundamental_div_mod_converse(
                g.area() - 1,
                w,
                g.height - 1,
                w - 1,
            );
        }
        lemma_grid_shape(w, g.height);
        let p = ((i % w) as usize, (i / w) as usize);
        assert(cell_index(w, p.0 as int, p.1 as int) == i) by {
            assert(w * (i / w) == (i / w) * w) by (nonlinear_arith);
        }
        assert(0 <= i % w < w);
        assert(in_grid(w, g.height, p.0 as int, p.1 as int));
        if g.mines[i] {
            assert(cur == prev.push(UIUpdate { pos: p, state: CellState::Mine }));
            assert forall|j: int| 0 <= j < cur.len() implies #[trigger] cur[j].state == CellState::Mine
                && in_grid(g.width, g.height, cur[j].pos.0 as int, cur[j].pos.1 as int)
                && 0 <= cell_index(g.width, cur[j].pos.0 as int, cur[j].pos.1 as int) < n
                && g.mines[cell_index(g.width, cur[j].pos.0 as int, cur[j].pos.1 as int)] by {
                if j < prev.len() {
                    assert(cur[j] == prev[j]);
                    assert(prev[j].state == CellState::Mine);
                }
            }
            assert forall|j1: int, j2: int|
                0 <= j1 < j2 < cur.len() implies cell_index(
                w,
                #[trigger] cur[j1].pos.0 as int,
                cur[j1].pos.1 as int,
            ) < cell_index(w, #[trigger] cur[j2].pos.0 as int, cur[j2].pos.1 as int) by {
                assert(cur[j1] == prev[j1]);
                assert(prev[j1].state == CellState::Mine);
                if j2 < prev.len() {
                    assert(cur[j2] == prev[j2]);
                    assert(prev[j2].pos == cur[j2].pos);
                }
            }
            assert forall|k: int| 0 <= k < n && #[trigger] g.mines[k] implies exists|j: int|
                0 <= j < cur.len() && cell_index(w, cur[j].pos.0 as int, cur[j].pos.1 as int) == k by {
                if k < i {
                    let j = choose|j: int|
                        0 <= j < prev.len() && cell_index(w, prev[j].pos.0 as int, prev[j].pos.1 as int) == k;
                    assert(cur[j] == prev[j]);
                } else {
                    assert(cur[prev.len() as int].pos == p);
                }
            }
        } else {
            assert(cur == prev);
            assert forall|j: int| 0 <= j < cur.len() implies #[trigger] cur[j].state == CellState::Mine
                && in_grid(g.width, g.height, cur[j].pos.0 as int, cur[j].pos.1 as int)
                && 0 <= cell_index(g.width, cur[j].pos.0 as int, cur[j].pos.1 as int) < n
                && g.mines[cell_index(g.width, cur[j].pos.0 as int, cur[j].pos.1 as int)] by {
                assert(prev[j].pos == cur[j].pos);
            }
        }
    }
}

/// Once mines are spread, exactly as many lie on the field as the session was set up with.
pub proof fn lemma_mines_placed(v: LogicView)
    requires
        v.wf(),
        v.mines_spread,
    ensures
        v.game.placed() == v.game.total,
{
}

/// One reveal taken off the stack keeps every reveal, pending or done, next to the
/// starting cell or to a zero revealed since the start.
#[verifier::rlimit(60)]
proof fn lemma_reveal_tracking(
    vb: LogicView,
    va: LogicView,
    start: BoardView,
    fx: int,
    fy: int,
    sb: Seq<Task>,
    sa: Seq<Task>,
    q: (usize, usize),
)
    requires
        vb.game.width >= 3,
        vb.game.height >= 3,
        vb.area() <= usize::MAX,
        vb.board.width == vb.game.width,
        vb.board.height == vb.game.height,
        va.board.width == vb.game.width,
        va.board.height == vb.game.height,
        va.game.width == vb.game.width,
        va.game.height == vb.game.height,
        vb.board.cells.len() == vb.area(),
        va.board.cells.len() == vb.area(),
        forall|i: int|
            0 <= i < vb.area() && #[trigger] va.board.cells[i] != vb.board.cells[i]
                ==> vb.board.cells[i] is Veiled,
        start.width == vb.game.width,
        start.height == vb.game.height,
        sb.len() > 0,
        sb.last() == Task::Reveal(q),
        in_grid(vb.game.width, vb.game.height, q.0 as int, q.1 as int),
        extends(sb.drop_last(), sa),
        sa.len() > sb.len() - 1 ==> vb.board.status_at(q.0 as int, q.1 as int) is Veiled,
        reveals_from(vb, start, fx, fy, sb),
        vb.revealed_from(start, fx, fy),
        forall|i: int|
            0 <= i < vb.area() && #[trigger] vb.board.cells[i] != start.cells[i] ==> start.cells[i] is Veiled,
        forall|x: int, y: int|
            in_grid(vb.game.width, vb.game.height, x, y) && (x != q.0 || y != q.1) ==> !(#[trigger] va.board.status_at(x, y) is Safe)
                || va.board.status_at(x, y) == vb.board.status_at(x, y),
        forall|t: int|
            sb.len() - 1 <= t < sa.len() ==> #[trigger] sa[t] is Reveal && touching(
                task_pos(sa[t]).0 as int,
                task_pos(sa[t]).1 as int,
                q.0 as int,
                q.1 as int,
            ) && va.board.status_at(q.0 as int, q.1 as int) == ICellState::Safe(0),
    ensures
        reveals_from(va, start, fx, fy, sa),
        va.revealed_from(start, fx, fy),
        forall|i: int|
            0 <= i < va.area() && #[trigger] va.board.cells[i] != start.cells[i] ==> start.cells[i] is Veiled,
{
    lemma_grid_shape(vb.game.width, vb.game.height);
    let qx = q.0 as int;
    let qy = q.1 as int;
    let sp = sb.drop_last();
    // a zero seen before stays a zero
    assert forall|a: int, b: int|
        in_grid(vb.game.width, vb.game.height, a, b) && vb.board.status_at(a, b)
            == ICellState::Safe(0) implies #[trigger] va.board.status_at(a, b)
        == ICellState::Safe(0) by {
        lemma_index_bounds(vb.game.width, vb.game.height, a, b);
        let i = cell_index(vb.game.width, a, b);
        assert(vb.board.cells[i] == va.board.cells[i]);
    }
    assert forall|i: int|
        0 <= i < vb.area() && #[trigger] va.board.cells[i] != start.cells[i]
            implies start.cells[i] is Veiled by {
        if va.board.cells[i] != vb.board.cells[i] {
            assert(vb.board.cells[i] is Veiled);
        }
    }
    assert(vb.board.status_at(qx, qy) is Veiled ==> start.status_at(qx, qy) is Veiled) by {
        lemma_index_bounds(vb.game.width, vb.game.height, qx, qy);
    }
    assert forall|x: int, y: int|
        in_grid(va.game.width, va.game.height, x, y) && start.status_at(x, y) is Veiled
            && #[trigger] va.board.status_at(x, y) is Safe implies (x == fx && y == fy)
        || exists|a: int, b: int|
            in_grid(va.game.width, va.game.height, a, b) && touching(x, y, a, b)
                && start.status_at(a, b) is Veiled && #[trigger] va.board.status_at(a, b)
                == ICellState::Safe(0) by {
        if x != qx || y != qy || !(vb.board.status_at(x, y) is Veiled) {
            lemma_index_bounds(vb.game.width, vb.game.height, x, y);
            if va.board.status_at(x, y) != vb.board.status_at(x, y) {
                assert(x == qx && y == qy);
            }
            assert(vb.board.status_at(x, y) is Safe);
            if !(x == fx && y == fy) {
                let (a, b) = choose|a: int, b: int|
                    in_grid(vb.game.width, vb.game.height, a, b) && touching(x, y, a, b)
                        && start.status_at(a, b) is Veiled && #[trigger] vb.board.status_at(a, b)
                        == ICellState::Safe(0);
                assert(va.board.status_at(a, b) == ICellState::Safe(0));
            }
        } else {
            if !(qx == fx && qy == fy) {
                let (a, b) = choose|a: int, b: int|
                    in_grid(vb.game.width, vb.game.height, a, b) && touching(qx, qy, a, b)
                        && start.status_at(a, b) is Veiled && #[trigger] vb.board.status_at(a, b)
                        == ICellState::Safe(0);
                assert(va.board.status_at(a, b) == ICellState::Safe(0));
            }
        }
    }
    assert forall|t: int| 0 <= t < sa.len() implies #[trigger] sa[t] is Reveal && ((task_pos(sa[t]).0 == fx
        && task_pos(sa[t]).1 == fy) || exists|a: int, b: int|
        in_grid(va.game.width, va.game.height, a, b) && touching(
            task_pos(sa[t]).0 as int,
            task_pos(sa[t]).1 as int,
            a,
            b,
        ) && start.status_at(a, b) is Veiled && #[trigger] va.board.status_at(a, b)
            == ICellState::Safe(0)) by {
        if t < sp.len() {
            assert(sa[t] == sp[t]);
            assert(sp[t] == sb[t]);
            if !(task_pos(sb[t]).0 == fx && task_pos(sb[t]).1 == fy) {
                let (a, b) = choose|a: int, b: int|
                    in_grid(vb.game.width, vb.game.height, a, b) && touching(
                        task_pos(sb[t]).0 as int,
                        task_pos(sb[t]).1 as int,
                        a,
                        b,
                    ) && start.status_at(a, b) is Veiled && #[trigger] vb.board.status_at(a, b)
                        == ICellState::Safe(0);
                assert(va.board.status_at(a, b) == ICellState::Safe(0));
            }
        } else {
            assert(va.board.status_at(qx, qy) == ICellState::Safe(0));
            assert(touching(task_pos(sa[t]).0 as int, task_pos(sa[t]).1 as int, qx, qy));
        }
    }
}

/// One task taken off the stack keeps every cell next to a change either done for the
/// assist or with work pending.
#[verifier::rlimit(60)]
proof fn lemma_assist_step(
    vb: LogicView,
    va: LogicView,
    start: BoardView,
    sb: Seq<Task>,
    sa: Seq<Task>,
)
    requires
        vb.wf(),
        va.wf(),
        va.game.width == vb.game.width,
        va.game.height == vb.game.height,
        start.width == vb.game.width,
        start.height == vb.game.height,
        sb.len() > 0,
        extends(sb.drop_last(), sa),
        in_grid(vb.game.width, vb.game.height, task_pos(sb.last()).0 as int, task_pos(sb.last()).1 as int),
        assist_covered(vb, start, sb),
        va.outcome != Outcome::Lost,
        va.outcome == Outcome::Won ==> forall|i: int| 0 <= i < va.area() ==> !(#[trigger] va.board.cells[i] is Veiled),
        sb.last() is Reveal || sb.last() is Flag ==> {
            let q = task_pos(sb.last());
            &&& va.outcome != Outcome::Won ==> forall|x: int, y: int|
                in_grid(vb.game.width, vb.game.height, x, y) && (x != q.0 || y != q.1)
                    ==> #[trigger] va.board.status_at(x, y) == vb.board.status_at(x, y)
            &&& vb.board.status_at(q.0 as int, q.1 as int) is Veiled ==> !(va.board.status_at(q.0 as int, q.1 as int) is Veiled)
            &&& va.outcome == Outcome::InProgress && va.board.status_at(q.0 as int, q.1 as int)
                != vb.board.status_at(q.0 as int, q.1 as int) ==> exists|t: int|
                sb.len() - 1 <= t < sa.len() && sa[t] == Task::Scan(q)
        },
        sb.last() is Scan ==> va.board == vb.board && forall|a: int, b: int|
            in_grid(vb.game.width, vb.game.height, a, b) && #[trigger] touching(
                a,
                b,
                task_pos(sb.last()).0 as int,
                task_pos(sb.last()).1 as int,
            ) ==> exists|t: int|
                sb.len() - 1 <= t < sa.len() && sa[t] == Task::Chord((a as usize, b as usize)),
        sb.last() is Chord ==> va.board == vb.board && (vb.board.classify(
            task_pos(sb.last()).0 as int,
            task_pos(sb.last()).1 as int,
        ) == CellEnvironment::AllSafe || vb.board.classify(
            task_pos(sb.last()).0 as int,
            task_pos(sb.last()).1 as int,
        ) == CellEnvironment::AllMines ==> forall|a: int, b: int|
            in_grid(vb.game.width, vb.game.height, a, b) && #[trigger] touching(
                a,
                b,
                task_pos(sb.last()).0 as int,
                task_pos(sb.last()).1 as int,
            ) ==> exists|t: int|
                sb.len() - 1 <= t < sa.len() && (sa[t] == Task::Reveal((a as usize, b as usize))
                    || sa[t] == Task::Flag((a as usize, b as usize)))),
    ensures
        assist_covered(va, start, sa),
{
    let sp = sb.drop_last();
    let task = sb.last();
    let q = task_pos(task);
    let qx = q.0 as int;
    let qy = q.1 as int;
    let last = sb.len() - 1;
    lemma_grid_shape(vb.game.width, vb.game.height);
    assert forall|x: int, y: int|
        in_grid(va.game.width, va.game.height, x, y) && #[trigger] va.near_change(start, x, y)
            implies va.assist_done(x, y) || assist_pending(va, sa, x, y) by {
        if va.outcome == Outcome::Won {
            assert forall|a: int, b: int|
                in_grid(va.board.width, va.board.height, a, b) && touching(a, b, x, y) implies !(#[trigger] va.board.status_at(a, b) is Veiled) by {
                lemma_index_bounds(va.game.width, va.game.height, a, b);
            }
        } else if (task is Reveal || task is Flag) && touching(x, y, qx, qy)
            && va.board.status_at(qx, qy) != vb.board.status_at(qx, qy) {
            let t = choose|t: int| last <= t < sa.len() && sa[t] == Task::Scan(q);
            assert(sa[t] is Scan && touching(x, y, task_pos(sa[t]).0 as int, task_pos(sa[t]).1 as int));
        } else {
            // nothing in the window of (x, y) changed
            assert forall|a: int, b: int|
                in_grid(vb.game.width, vb.game.height, a, b) && touching(a, b, x, y) implies #[trigger] vb.board.status_at(a, b)
                == va.board.status_at(a, b) by {
                if task is Reveal || task is Flag {
                    if a == qx && b == qy {
                    } else {
                        assert(va.board.status_at(a, b) == vb.board.status_at(a, b));
                    }
                }
            }
            crate::board::lemma_settled_frame(vb.board, va.board, x, y);
            crate::board::lemma_classify_frame(vb.board, va.board, x, y);
            let (a0, b0) = choose|a: int, b: int|
                in_grid(va.game.width, va.game.height, a, b) && touching(x, y, a, b)
                    && #[trigger] va.board.status_at(a, b) != start.status_at(a, b);
            assert(vb.board.status_at(a0, b0) == va.board.status_at(a0, b0));
            assert(vb.near_change(start, x, y));
            assert(vb.board.no_veiled_around(x, y) == va.board.no_veiled_around(x, y));
            if !vb.assist_done(x, y) {
                assert(assist_pending(vb, sb, x, y));
                if exists|t: int|
                    0 <= t < sb.len() && #[trigger] sb[t] is Scan && touching(
                        x,
                        y,
                        task_pos(sb[t]).0 as int,
                        task_pos(sb[t]).1 as int,
                    ) {
                    let t = choose|t: int|
                        0 <= t < sb.len() && #[trigger] sb[t] is Scan && touching(
                            x,
                            y,
                            task_pos(sb[t]).0 as int,
                            task_pos(sb[t]).1 as int,
                        );
                    if t < last {
                        assert(sa[t] == sp[t]);
                        assert(sp[t] == sb[t]);
                    } else {
                        let t2 = choose|t2: int|
                            last <= t2 < sa.len() && sa[t2] == Task::Chord((x as usize, y as usize));
                        assert(sa[t2] == Task::Chord((x as usize, y as usize)));
                    }
                } else if exists|t: int| 0 <= t < sb.len() && sb[t] == Task::Chord((x as usize, y as usize)) {
                    let t = choose|t: int| 0 <= t < sb.len() && sb[t] == Task::Chord((x as usize, y as usize));
                    if t < last {
                        assert(sa[t] == sp[t]);
                        assert(sp[t] == sb[t]);
                    } else {
                        assert(qx == x && qy == y);
                        assert forall|a: int, b: int|
                            in_grid(va.game.width, va.game.height, a, b) && touching(a, b, x, y)
                                && #[trigger] va.board.status_at(a, b) is Veiled implies exists|t: int|
                            0 <= t < sa.len() && (sa[t] == Task::Reveal((a as usize, b as usize)) || sa[t]
                                == Task::Flag((a as usize, b as usize))) by {
                            assert(touching(a, b, qx, qy));
                        }
                    }
                } else {
                    assert forall|a: int, b: int|
                        in_grid(va.game.width, va.game.height, a, b) && touching(a, b, x, y)
                            && #[trigger] va.board.status_at(a, b) is Veiled implies exists|t: int|
                        0 <= t < sa.len() && (sa[t] == Task::Reveal((a as usize, b as usize)) || sa[t]
                            == Task::Flag((a as usize, b as usize))) by {
                        assert(vb.board.status_at(a, b) is Veiled);
                        let t = choose|t: int|
                            0 <= t < sb.len() && (sb[t] == Task::Reveal((a as usize, b as usize)) || sb[t]
                                == Task::Flag((a as usize, b as usize)));
                        if t < last {
                            assert(sa[t] == sp[t]);
                            assert(sp[t] == sb[t]);
                        } else {
                            assert(a == qx && b == qy);
                        }
                    }
                }
            }
        }
    }
}

/// Without assist, a reveal of a cell that is not mined pushes only reveals of cells
/// that are not mined either.
proof fn lemma_safe_reveal_step(vb: LogicView, va: LogicView, sb: Seq<Task>, sa: Seq<Task>)
    requires
        vb.wf(),
        vb.advances(va),
        sb.len() > 0,
        sb.last() is Reveal,
        in_grid(vb.game.width, vb.game.height, task_pos(sb.last()).0 as int, task_pos(sb.last()).1 as int),
        reveals_safe(vb, sb),
        extends(sb.drop_last(), sa),
        forall|t: int|
            sb.len() - 1 <= t < sa.len() ==> #[trigger] sa[t] is Reveal && touching(
                task_pos(sa[t]).0 as int,
                task_pos(sa[t]).1 as int,
                task_pos(sb.last()).0 as int,
                task_pos(sb.last()).1 as int,
            ) && va.board.status_at(task_pos(sb.last()).0 as int, task_pos(sb.last()).1 as int)
                == ICellState::Safe(0),
    ensures
        reveals_safe(va, sa),
{
    let q = task_pos(sb.last());
    let qx = q.0 as int;
    let qy = q.1 as int;
    let sp = sb.drop_last();
    assert(vb.mines_spread);
    assert forall|t: int| 0 <= t < sa.len() && #[trigger] sa[t] is Reveal implies !va.game.mine_at(
        task_pos(sa[t]).0 as int,
        task_pos(sa[t]).1 as int,
    ) by {
        if t < sp.len() {
            assert(sa[t] == sp[t]);
            assert(sp[t] == sb[t]);
        } else {
            let a = task_pos(sa[t]).0 as int;
            let b = task_pos(sa[t]).1 as int;
            assert(va.board.status_at(qx, qy) is Safe);
            lemma_index_bounds(va.game.width, va.game.height, qx, qy);
            if a == qx && b == qy {
                assert(!va.game.mines[cell_index(va.game.width, qx, qy)]);
            } else {
                crate::grid::lemma_around_le(9, qx, qy, va.game.mine_pred());
                assert(va.board.status_at(qx, qy) == ICellState::Safe(va.game.mines_around(qx, qy) as usize));
                assert(va.game.mines_around(qx, qy) == 0);
                crate::game::lemma_no_mines_around(va.game, qx, qy, a, b);
            }
        }
    }
}

/// A stack of reveals only, or of flags only, keeps to its kind without assist.
proof fn lemma_kind_step(
    v0: LogicView,
    vb: LogicView,
    va: LogicView,
    sb: Seq<Task>,
    sa: Seq<Task>,
    stack_in: Seq<Task>,
    reveals: bool,
)
    requires
        v0.wf(),
        vb.wf(),
        vb.advances(va),
        vb.outcome == Outcome::InProgress,
        !v0.auto_unveil,
        vb.auto_unveil == v0.auto_unveil,
        vb.game.width == v0.game.width,
        vb.game.height == v0.game.height,
        sb.len() > 0,
        in_grid(vb.game.width, vb.game.height, task_pos(sb.last()).0 as int, task_pos(sb.last()).1 as int),
        extends(sb.drop_last(), sa),
        forall|t: int| 0 <= t < sb.len() ==> if reveals {
            #[trigger] sb[t] is Reveal
        } else {
            sb[t] is Flag
        },
        !reveals ==> vb.outcome == v0.outcome && sb.len() <= stack_in.len() && (forall|t: int|
            0 <= t < sb.len() ==> #[trigger] sb[t] == stack_in[t]) && forall|a: int, b: int|
            in_grid(v0.game.width, v0.game.height, a, b) && #[trigger] vb.board.status_at(a, b)
                != v0.board.status_at(a, b) ==> vb.board.status_at(a, b) is Flagged
                && exists|t: int| 0 <= t < stack_in.len() && stack_in[t] == Task::Flag((a as usize, b as usize)),
        reveals ==> forall|a: int, b: int|
            in_grid(v0.game.width, v0.game.height, a, b) && #[trigger] vb.board.status_at(a, b)
                != v0.board.status_at(a, b) ==> vb.board.status_at(a, b) is Safe
                || vb.board.status_at(a, b) is Mine || vb.outcome == Outcome::Won,
        sb.last() is Reveal ==> {
            let q = task_pos(sb.last());
            &&& va.outcome != Outcome::Won ==> forall|x: int, y: int|
                in_grid(vb.game.width, vb.game.height, x, y) && (x != q.0 || y != q.1)
                    ==> #[trigger] va.board.status_at(x, y) == vb.board.status_at(x, y)
            &&& vb.board.status_at(q.0 as int, q.1 as int) is Veiled ==> va.board.status_at(q.0 as int, q.1 as int) is Safe
                || va.board.status_at(q.0 as int, q.1 as int) is Mine
            &&& forall|t: int| sb.len() - 1 <= t < sa.len() ==> #[trigger] sa[t] is Reveal
        },
        sb.last() is Flag ==> {
            let q = task_pos(sb.last());
            &&& forall|x: int, y: int|
                in_grid(vb.game.width, vb.game.height, x, y) && (x != q.0 || y != q.1)
                    ==> #[trigger] va.board.status_at(x, y) == vb.board.status_at(x, y)
            &&& vb.board.status_at(q.0 as int, q.1 as int) is Veiled ==> va.board.status_at(q.0 as int, q.1 as int) is Flagged
            &&& sa == sb.drop_last()
            &&& va.outcome == vb.outcome
        },
    ensures
        forall|t: int| 0 <= t < sa.len() ==> if reveals {
            #[trigger] sa[t] is Reveal
        } else {
            sa[t] is Flag
        },
        !reveals ==> va.outcome == v0.outcome && sa.len() <= stack_in.len() && (forall|t: int|
            0 <= t < sa.len() ==> #[trigger] sa[t] == stack_in[t]) && forall|a: int, b: int|
            in_grid(v0.game.width, v0.game.height, a, b) && #[trigger] va.board.status_at(a, b)
                != v0.board.status_at(a, b) ==> va.board.status_at(a, b) is Flagged
                && exists|t: int| 0 <= t < stack_in.len() && stack_in[t] == Task::Flag((a as usize, b as usize)),
        reveals ==> forall|a: int, b: int|
            in_grid(v0.game.width, v0.game.height, a, b) && #[trigger] va.board.status_at(a, b)
                != v0.board.status_at(a, b) ==> va.board.status_at(a, b) is Safe
                || va.board.status_at(a, b) is Mine || va.outcome == Outcome::Won,
{
    let sp = sb.drop_last();
    let q = task_pos(sb.last());
    let last = sb.len() - 1;
    lemma_grid_shape(v0.game.width, v0.game.height);
    assert(sb[last] == sb.last());
    assert forall|t: int| 0 <= t < sa.len() implies if reveals {
        #[trigger] sa[t] is Reveal
    } else {
        sa[t] is Flag
    } by {
        if t < sp.len() {
            assert(sa[t] == sp[t]);
            assert(sp[t] == sb[t]);
        }
    }
    if !reveals {
        assert forall|t: int| 0 <= t < sa.len() implies #[trigger] sa[t] == stack_in[t] by {
            assert(sa[t] == sb[t]);
        }
        assert forall|a: int, b: int|
            in_grid(v0.game.width, v0.game.height, a, b) && #[trigger] va.board.status_at(a, b)
                != v0.board.status_at(a, b) implies va.board.status_at(a, b) is Flagged
            && exists|t: int| 0 <= t < stack_in.len() && stack_in[t] == Task::Flag((a as usize, b as usize)) by {
            if a == q.0 && b == q.1 && va.board.status_at(a, b) != vb.board.status_at(a, b) {
                lemma_index_bounds(v0.game.width, v0.game.height, a, b);
                let i = cell_index(v0.game.width, a, b);
                assert(vb.board.cells[i] is Veiled);
                assert(sb[last] is Flag);
                assert(sb.last() == Task::Flag(q));
                assert(stack_in[last] == sb[last]);
                assert(stack_in[last] == Task::Flag((a as usize, b as usize)));
            } else {
                assert(va.board.status_at(a, b) == vb.board.status_at(a, b));
            }
        }
    } else {
        assert forall|a: int, b: int|
            in_grid(v0.game.width, v0.game.height, a, b) && #[trigger] va.board.status_at(a, b)
                != v0.board.status_at(a, b) implies va.board.status_at(a, b) is Safe
            || va.board.status_at(a, b) is Mine || va.outcome == Outcome::Won by {
            if va.outcome != Outcome::Won {
                if a == q.0 && b == q.1 && va.board.status_at(a, b) != vb.board.status_at(a, b) {
                    lemma_index_bounds(v0.game.width, v0.game.height, a, b);
                    let i = cell_index(v0.game.width, a, b);
                    assert(vb.board.cells[i] is Veiled);
                } else {
                    assert(va.board.status_at(a, b) == vb.board.status_at(a, b));
                }
            }
        }
    }
}

/// With every cell unveiled or flagged and every safe cell unveiled, the flags sit
/// exactly on the mines.
proof fn lemma_won_flags(v: LogicView)
    requires
        v.game.wf(),
        v.board.wf(),
        v.board.width == v.game.width,
        v.board.height == v.game.height,
        v.mines_spread ==> v.game.unspread == 0,
        v.mines_spread,
        forall|i: int| 0 <= i < v.area() ==> !(#[trigger] v.board.cells[i] is DefinitelySafe),
        forall|i: int| 0 <= i < v.area() && #[trigger] v.board.cells[i] is Safe ==> !v.game.mines[i],
        forall|i: int| 0 <= i < v.area() ==> !(#[trigger] v.board.cells[i] is Veiled),
        forall|i: int| 0 <= i < v.area() ==> !(#[trigger] v.board.cells[i] is Mine),
        v.board.unveiled + v.game.total == v.area(),
    ensures
        v.board.flags == v.game.total,
{
    let n = v.area();
    let safe = |j: int| !v.game.mines[j];
    assert forall|i: int| 0 <= i < n && #[trigger] v.board.unveiled_cells()(i) implies safe(i) by {}
    lemma_count_complement(n, v.game.mined(), safe);
    crate::grid::lemma_count_same(n, v.board.unveiled_cells(), safe);
    assert forall|i: int| 0 <= i < n implies #[trigger] v.board.flagged()(i) == v.game.mined()(i) by {
        if v.game.mines[i] {
            assert(!safe(i) || v.board.unveiled_cells()(i));
        } else {
            assert(safe(i));
            assert(v.board.unveiled_cells()(i));
        }
    }
    crate::grid::lemma_count_ext(n, v.board.flagged(), v.game.mined());
}

/// A reveal taken off the stack keeps every revealed number chained to the start.
proof fn lemma_chain_step(
    vb: LogicView,
    va: LogicView,
    start: BoardView,
    sb: Seq<Task>,
    elen: int,
    fx: int,
    fy: int,
)
    requires
        vb.wf(),
        vb.advances(va),
        vb.outcome == Outcome::InProgress,
        start.width == vb.game.width,
        start.height == vb.game.height,
        sb.len() > 0,
        sb.last() is Reveal,
        reveals_from(vb, start, fx, fy, sb),
        forall|i: int|
            0 <= i < vb.area() && #[trigger] vb.board.cells[i] != start.cells[i] ==> start.cells[i] is Veiled,
        0 <= elen <= vb.events.len(),
        vb.reveal_chain(elen, fx, fy),
        zeros_shown(vb, start, elen),
        forall|x: int, y: int|
            in_grid(vb.game.width, vb.game.height, x, y) && (x != task_pos(sb.last()).0 || y
                != task_pos(sb.last()).1) ==> !(#[trigger] va.board.status_at(x, y) is Safe)
                || va.board.status_at(x, y) == vb.board.status_at(x, y),
    ensures
        va.reveal_chain(elen, fx, fy),
        zeros_shown(va, start, elen),
{
    let q = task_pos(sb.last());
    let end = vb.change_end(va);
    lemma_grid_shape(vb.game.width, vb.game.height);
    assert forall|a: int, b: int|
        in_grid(va.game.width, va.game.height, a, b) && start.status_at(a, b) is Veiled
            && #[trigger] va.board.status_at(a, b) == ICellState::Safe(0) implies exists|k: int|
        elen <= k < va.events.len() && va.events[k].pos == (a as usize, b as usize)
            && va.events[k].state == CellState::Safe(0) by {
        if va.board.status_at(a, b) == vb.board.status_at(a, b) {
            let k = choose|k: int|
                elen <= k < vb.events.len() && vb.events[k].pos == (a as usize, b as usize)
                    && vb.events[k].state == CellState::Safe(0);
            assert(va.events[k] == vb.events[k]);
        } else {
            let k = choose|k: int|
                vb.events.len() <= k < end && va.events[k].pos == (a as usize, b as usize);
            assert(va.events[k].state == visible(va.board.status_at(a, b)));
        }
    }
    if va.outcome == Outcome::Lost {
        lemma_mine_events(va.game, va.area());
    }
    assert forall|j: int|
        elen <= j < va.events.len() && #[trigger] va.events[j].state is Safe && (
        va.events[j].pos.0 as int != fx || va.events[j].pos.1 as int != fy) implies exists|k: int|
        elen <= k < j && va.events[k].state == CellState::Safe(0) && touching(
            va.events[j].pos.0 as int,
            va.events[j].pos.1 as int,
            va.events[k].pos.0 as int,
            va.events[k].pos.1 as int,
        ) by {
        if j < vb.events.len() {
            assert(va.events[j] == vb.events[j]);
            let k = choose|k: int|
                elen <= k < j && vb.events[k].state == CellState::Safe(0) && touching(
                    vb.events[j].pos.0 as int,
                    vb.events[j].pos.1 as int,
                    vb.events[k].pos.0 as int,
                    vb.events[k].pos.1 as int,
                );
            assert(va.events[k] == vb.events[k]);
        } else if j >= end {
            let me = mine_events(va.game, va.area());
            assert(va.events[j] == me[j - end]);
            assert(me[j - end].state == CellState::Mine);
        } else {
            let p = va.events[j].pos;
            assert(va.board.status_at(p.0 as int, p.1 as int) is Safe);
            assert(p.0 as int == q.0 && p.1 as int == q.1);
            let t = sb.len() - 1;
            assert(sb[t] == sb.last());
            let (za, zb) = choose|a: int, b: int|
                in_grid(vb.game.width, vb.game.height, a, b) && touching(
                    task_pos(sb[t]).0 as int,
                    task_pos(sb[t]).1 as int,
                    a,
                    b,
                ) && start.status_at(a, b) is Veiled && #[trigger] vb.board.status_at(a, b)
                    == ICellState::Safe(0);
            let k = choose|k: int|
                elen <= k < vb.events.len() && vb.events[k].pos == (za as usize, zb as usize)
                    && vb.events[k].state == CellState::Safe(0);
            assert(va.events[k] == vb.events[k]);
        }
    }
}

/// After the first step of a reveal, only the pressed cell may show a number, so the
/// chain starts there.
proof fn lemma_chain_start(v0: LogicView, v1: LogicView, px: int, py: int)
    requires
        v0.wf(),
        v0.advances(v1),
        v0.outcome == Outcome::InProgress,
        forall|x: int, y: int|
            in_grid(v0.game.width, v0.game.height, x, y) && (x != px || y != py) ==> !(#[trigger] v1.board.status_at(x, y) is Safe)
                || v1.board.status_at(x, y) == v0.board.status_at(x, y),
    ensures
        v1.reveal_chain(v0.events.len() as int, px, py),
        zeros_shown(v1, v0.board, v0.events.len() as int),
{
    let end = v0.change_end(v1);
    lemma_grid_shape(v0.game.width, v0.game.height);
    if v1.outcome == Outcome::Lost {
        lemma_mine_events(v1.game, v1.area());
    }
    assert forall|j: int|
        v0.events.len() <= j < v1.events.len() && #[trigger] v1.events[j].state is Safe && (
        v1.events[j].pos.0 as int != px || v1.events[j].pos.1 as int != py) implies exists|k: int|
        v0.events.len() <= k < j && v1.events[k].state == CellState::Safe(0) && touching(
            v1.events[j].pos.0 as int,
            v1.events[j].pos.1 as int,
            v1.events[k].pos.0 as int,
            v1.events[k].pos.1 as int,
        ) by {
        if j >= end {
            let me = mine_events(v1.game, v1.area());
            assert(v1.events[j] == me[j - end]);
            assert(me[j - end].state == CellState::Mine);
        } else {
            let p = v1.events[j].pos;
            assert(v1.board.status_at(p.0 as int, p.1 as int) is Safe);
        }
    }
    assert forall|a: int, b: int|
        in_grid(v1.game.width, v1.game.height, a, b) && v0.board.status_at(a, b) is Veiled
            && #[trigger] v1.board.status_at(a, b) == ICellState::Safe(0) implies exists|k: int|
        v0.events.len() <= k < v1.events.len() && v1.events[k].pos == (a as usize, b as usize)
            && v1.events[k].state == CellState::Safe(0) by {
        assert(v1.board.status_at(a, b) != v0.board.status_at(a, b));
        let k = choose|k: int| v0.events.len() <= k < end && v1.events[k].pos == (a as usize, b as usize);
        let p = v1.events[k].pos;
        assert(p.0 as int == a && p.1 as int == b);
        assert(v1.events[k].state == visible(v1.board.status_at(p.0 as int, p.1 as int)));
    }
}

/// With every flag on a mine, a numbered cell whose flags match its number has no mine
/// among its veiled neighbours.
proof fn lemma_chord_safe(v: LogicView, nx: int, ny: int, a: int, b: int)
    requires
        v.wf(),
        v.flags_correct(),
        in_grid(v.game.width, v.game.height, nx, ny),
        v.board.classify(nx, ny) == CellEnvironment::AllSafe,
        in_grid(v.game.width, v.game.height, a, b),
        touching(a, b, nx, ny),
        v.board.status_at(a, b) is Veiled,
    ensures
        !v.game.mine_at(a, b),
{
    lemma_grid_shape(v.game.width, v.game.height);
    lemma_index_bounds(v.game.width, v.game.height, nx, ny);
    crate::grid::lemma_around_le(9, nx, ny, v.game.mine_pred());
    assert(v.board.status_at(nx, ny) == ICellState::Safe(v.game.mines_around(nx, ny) as usize));
    assert forall|j: int| 0 <= j < 9 && j != 4 && #[trigger] v.board.flag_at()(nx + crate::grid::window_dx(j), ny + crate::grid::window_dy(j))
        implies v.game.mine_pred()(nx + crate::grid::window_dx(j), ny + crate::grid::window_dy(j)) by {
        lemma_index_bounds(v.game.width, v.game.height, nx + crate::grid::window_dx(j), ny + crate::grid::window_dy(j));
    }
    assert(v.board.flags_around(nx, ny) == v.game.mines_around(nx, ny));
    crate::grid::lemma_around_same(9, nx, ny, v.board.flag_at(), v.game.mine_pred());
    if a != nx || b != ny {
        lemma_slot_inverse(nx, ny, a, b);
        let j = crate::grid::window_slot(nx, ny, a, b);
        assert(j != 4);
        lemma_index_bounds(v.game.width, v.game.height, a, b);
        assert(!v.board.flag_at()(nx + crate::grid::window_dx(j), ny + crate::grid::window_dy(j)));
        assert(!v.game.mine_pred()(nx + crate::grid::window_dx(j), ny + crate::grid::window_dy(j)));
    } else {
        assert(v.board.status_at(nx, ny) is Safe);
    }
}

/// A numbered cell whose possible mines match its number has every veiled neighbour mined.
proof fn lemma_chord_mines(v: LogicView, nx: int, ny: int, a: int, b: int)
    requires
        v.wf(),
        in_grid(v.game.width, v.game.height, nx, ny),
        v.board.classify(nx, ny) == CellEnvironment::AllMines,
        in_grid(v.game.width, v.game.height, a, b),
        touching(a, b, nx, ny),
        v.board.status_at(a, b) is Veiled,
    ensures
        v.game.mine_at(a, b),
{
    lemma_grid_shape(v.game.width, v.game.height);
    lemma_index_bounds(v.game.width, v.game.height, nx, ny);
    crate::grid::lemma_around_le(9, nx, ny, v.game.mine_pred());
    assert(v.board.status_at(nx, ny) == ICellState::Safe(v.game.mines_around(nx, ny) as usize));
    assert forall|j: int| 0 <= j < 9 && j != 4 && #[trigger] v.game.mine_pred()(nx + crate::grid::window_dx(j), ny + crate::grid::window_dy(j))
        implies v.board.potential_at()(nx + crate::grid::window_dx(j), ny + crate::grid::window_dy(j)) by {
        lemma_index_bounds(v.game.width, v.game.height, nx + crate::grid::window_dx(j), ny + crate::grid::window_dy(j));
    }
    crate::grid::lemma_around_same(9, nx, ny, v.game.mine_pred(), v.board.potential_at());
    if a != nx || b != ny {
        lemma_slot_inverse(nx, ny, a, b);
        assert(v.board.potential_at()(a, b));
    } else {
        assert(v.board.status_at(nx, ny) is Safe);
    }
}

/// With every flag on a mine, one step of assisted play reveals no mine and flags only
/// mines.
#[verifier::rlimit(60)]
proof fn lemma_sound_step(vb: LogicView, va: LogicView, sb: Seq<Task>, sa: Seq<Task>)
    requires
        vb.wf(),
        vb.advances(va),
        vb.outcome == Outcome::InProgress,
        vb.flags_correct(),
        sb.len() > 0,
        in_grid(vb.game.width, vb.game.height, task_pos(sb.last()).0 as int, task_pos(sb.last()).1 as int),
        extends(sb.drop_last(), sa),
        tasks_in_grid(vb.game.width, vb.game.height, sa, 0),
        tasks_sound(vb, sb),
        sb.last() is Reveal ==> {
            let q = task_pos(sb.last());
            &&& vb.board.status_at(q.0 as int, q.1 as int) is Veiled && !va.game.mine_at(q.0 as int, q.1 as int)
                ==> va.outcome != Outcome::Lost
            &&& !(vb.board.status_at(q.0 as int, q.1 as int) is Veiled) ==> va == vb && sa == sb.drop_last()
            &&& vb.board.status_at(q.0 as int, q.1 as int) is Veiled && va.outcome != Outcome::Won
                ==> va.board.cells == vb.board.cells.update(
                cell_index(vb.game.width, q.0 as int, q.1 as int),
                va.board.status_at(q.0 as int, q.1 as int),
            )
            &&& vb.board.status_at(q.0 as int, q.1 as int) is Veiled ==> !(va.board.status_at(q.0 as int, q.1 as int) is Veiled)
            &&& va.board.status_at(q.0 as int, q.1 as int) is Safe || va.board.status_at(q.0 as int, q.1 as int) is Mine
                || !(vb.board.status_at(q.0 as int, q.1 as int) is Veiled)
            &&& forall|t: int|
                sb.len() - 1 <= t < sa.len() ==> #[trigger] sa[t] == Task::Scan(q) || (sa[t] is Reveal && touching(
                    task_pos(sa[t]).0 as int,
                    task_pos(sa[t]).1 as int,
                    q.0 as int,
                    q.1 as int,
                ) && va.board.status_at(q.0 as int, q.1 as int) == ICellState::Safe(0))
        },
        sb.last() is Flag ==> {
            let q = task_pos(sb.last());
            &&& vb.board.status_at(q.0 as int, q.1 as int) is Veiled ==> va.board.cells == vb.board.cells.update(
                cell_index(vb.game.width, q.0 as int, q.1 as int),
                ICellState::Flagged,
            )
            &&& !(vb.board.status_at(q.0 as int, q.1 as int) is Veiled) ==> va == vb
            &&& va.outcome == vb.outcome
            &&& forall|t: int| sb.len() - 1 <= t < sa.len() ==> #[trigger] sa[t] == Task::Scan(q)
        },
        sb.last() is Scan ==> va == vb && forall|t: int| sb.len() - 1 <= t < sa.len() ==> #[trigger] sa[t] is Chord,
        sb.last() is Chord ==> va == vb && {
            let n = task_pos(sb.last());
            forall|t: int|
                sb.len() - 1 <= t < sa.len() ==> {
                    &&& vb.board.classify(n.0 as int, n.1 as int) == CellEnvironment::AllSafe
                        ==> #[trigger] sa[t] is Reveal && touching(
                        task_pos(sa[t]).0 as int,
                        task_pos(sa[t]).1 as int,
                        n.0 as int,
                        n.1 as int,
                    )
                    &&& vb.board.classify(n.0 as int, n.1 as int) == CellEnvironment::AllMines
                        ==> sa[t] is Flag && touching(
                        task_pos(sa[t]).0 as int,
                        task_pos(sa[t]).1 as int,
                        n.0 as int,
                        n.1 as int,
                    )
                    &&& vb.board.classify(n.0 as int, n.1 as int) != CellEnvironment::AllSafe
                        && vb.board.classify(n.0 as int, n.1 as int) != CellEnvironment::AllMines
                        ==> false
                }
        },
    ensures
        va.outcome != Outcome::Lost,
        va.outcome == Outcome::InProgress ==> va.flags_correct() && tasks_sound(va, sa),
{
    let sp = sb.drop_last();
    let last = sb.len() - 1;
    let task = sb.last();
    let q = task_pos(task);
    let qx = q.0 as int;
    let qy = q.1 as int;
    assert(sb[last] == task);
    lemma_grid_shape(vb.game.width, vb.game.height);
    lemma_index_bounds(vb.game.width, vb.game.height, qx, qy);
    let iq = cell_index(vb.game.width, qx, qy);
    assert(vb.mines_spread);
    assert(va.game == vb.game);
    if task is Reveal && vb.board.status_at(qx, qy) is Veiled {
        assert(!vb.game.mine_at(qx, qy));
    }
    if va.outcome == Outcome::InProgress {
        assert forall|i: int| 0 <= i < va.area() && #[trigger] va.board.cells[i] is Flagged implies va.game.mines[i] by {
            if va.board.cells[i] != vb.board.cells[i] {
                assert(vb.board.cells[iq] is Veiled);
                assert(i == iq);
                if task is Flag {
                    assert(vb.game.mine_at(qx, qy));
                }
            }
        }
        // cells keep what made their pending tasks sound
        assert forall|a: int, b: int|
            in_grid(vb.game.width, vb.game.height, a, b) && !(#[trigger] vb.board.status_at(a, b) is Veiled)
                implies !(va.board.status_at(a, b) is Veiled) by {
            lemma_index_bounds(vb.game.width, vb.game.height, a, b);
            let i = cell_index(vb.game.width, a, b);
            if va.board.cells[i] != vb.board.cells[i] {
                assert(vb.board.cells[i] is Veiled);
            }
        }
        assert forall|t: int| 0 <= t < sa.len() && #[trigger] sa[t] is Reveal implies !va.game.mine_at(
            task_pos(sa[t]).0 as int,
            task_pos(sa[t]).1 as int,
        ) || !(va.board.status_at(task_pos(sa[t]).0 as int, task_pos(sa[t]).1 as int) is Veiled) by {
            let w = task_pos(sa[t]);
            let wx = w.0 as int;
            let wy = w.1 as int;
            if t < sp.len() {
                assert(sa[t] == sp[t]);
                assert(sp[t] == sb[t]);
                assert(in_grid(vb.game.width, vb.game.height, wx, wy));
            } else if task is Reveal {
                if wx != qx || wy != qy {
                    crate::grid::lemma_around_le(9, qx, qy, va.game.mine_pred());
                    assert(va.board.status_at(qx, qy) == ICellState::Safe(va.game.mines_around(qx, qy) as usize));
                    crate::game::lemma_no_mines_around(va.game, qx, qy, wx, wy);
                }
            } else if task is Chord {
                if va.board.status_at(wx, wy) is Veiled {
                    lemma_chord_safe(vb, qx, qy, wx, wy);
                }
            }
        }
        assert forall|t: int| 0 <= t < sa.len() && #[trigger] sa[t] is Flag implies va.game.mine_at(
            task_pos(sa[t]).0 as int,
            task_pos(sa[t]).1 as int,
        ) || !(va.board.status_at(task_pos(sa[t]).0 as int, task_pos(sa[t]).1 as int) is Veiled) by {
            let w = task_pos(sa[t]);
            let wx = w.0 as int;
            let wy = w.1 as int;
            if t < sp.len() {
                assert(sa[t] == sp[t]);
                assert(sp[t] == sb[t]);
                assert(in_grid(vb.game.width, vb.game.height, wx, wy));
            } else if task is Chord {
                if va.board.status_at(wx, wy) is Veiled {
                    lemma_chord_mines(vb, qx, qy, wx, wy);
                }
            }
        }
    }
}

/// A session with every cell veiled has no flag off a mine.
pub proof fn lemma_all_veiled_flags_correct(v: LogicView)
    requires
        forall|i: int| 0 <= i < v.area() ==> #[trigger] v.board.cells[i] == ICellState::Veiled,
    ensures
        v.flags_correct(),
{
}

/// The counters never claim more unveiled and mined cells than the board holds.
pub proof fn lemma_unveiled_fits(v: LogicView)
    requires
        v.wf(),
    ensures
        v.board.unveiled + v.game.total <= v.area(),
{
    let n = v.area();
    if v.mines_spread {
        assert forall|i: int| 0 <= i < n && #[trigger] v.board.unveiled_cells()(i) implies (|j: int| !v.game.mines[j])(i) by {}
        lemma_count_mono(n, v.board.unveiled_cells(), |j: int| !v.game.mines[j]);
        lemma_count_complement(n, v.game.mined(), |j: int| !v.game.mines[j]);
    } else {
        lemma_count_mono(n, v.board.unveiled_cells(), |j: int| false);
        crate::grid::lemma_count_zero(n);
    }
}

/// Once every safe cell is unveiled the session is won and no cell is left veiled.
pub proof fn lemma_all_safe_unveiled_won(v: LogicView)
    requires
        v.wf(),
        v.board.unveiled + v.game.total == v.area(),
    ensures
        v.outcome == Outcome::Won,
        forall|i: int| 0 <= i < v.area() ==> !(#[trigger] v.board.cells[i] is Veiled),
{
}

impl CellState {
    /// The public face of an internal status; `DefinitelySafe` has none.
    pub fn from(ics: ICellState) -> (r: CellState)
        requires
            !(ics is DefinitelySafe),
        ensures
            r == visible(ics),
    {
        match ics {
            ICellState::Veiled => CellState::Veiled,
            ICellState::Flagged => CellState::Flagged,
            ICellState::Mine => CellState::Mine,
            ICellState::Safe(n) => CellState::Safe(n),
            ICellState::DefinitelySafe => CellState::Veiled,
        }
    }
}

impl Logic {
    /// A session over `game`, with every cell veiled.
    pub fn new(game: Game, auto_unveil: bool, touch_mode: bool) -> (r: Logic)
        requires
            game@.wf(),
        ensures
            r@.wf(),
            r@.game == game@,
            r@.auto_unveil == auto_unveil,
            r@.touch_mode == touch_mode,
            !r@.mines_spread,
            r@.outcome == Outcome::InProgress,
            r@.events.len() == 0,
            r@.board.flags == 0,
            forall|i: int| 0 <= i < r@.area() ==> #[trigger] r@.board.cells[i] == ICellState::Veiled,
    {
        let dim = game.get_dim();
        let mine_count = game.get_mine_count();
        let game_state = GameState::new(dim, mine_count);
        let r = Logic {
            game,
            auto_unveil,
            touch_mode,
            mines_spread: false,
            game_state,
            outcome: Outcome::InProgress,
            ui_updates: Vec::new(),
        };
        proof {
            let v = r@;
            assert forall|x: int, y: int|
                in_grid(v.game.width, v.game.height, x, y) implies !(#[trigger] v.board.status_at(x, y) is Safe) by {
                lemma_index_bounds(v.game.width, v.game.height, x, y);
            }
        }
        r
    }

    pub fn get_dim(&self) -> (r: (usize, usize))
        ensures
            r.0 == self@.game.width,
            r.1 == self@.game.height,
    {
        self.game.get_dim()
    }

    pub fn get_mine_count(&self) -> (r: usize)
        ensures
            r == self@.game.total,
    {
        self.game.get_mine_count()
    }

    /// Number of flagged cells.
    pub fn get_flag_count(&self) -> (r: usize)
        ensures
            r == self@.board.flags,
    {
        self.game_state.get_flag_count()
    }

    pub fn outcome(&self) -> (r: Outcome)
        ensures
            r == self@.outcome,
    {
        self.outcome
    }

    /// What the display shows for cell `pos`.
    pub fn cell_state(&self, pos: (usize, usize)) -> (r: CellState)
        requires
            self@.wf(),
            in_grid(self@.game.width, self@.game.height, pos.0 as int, pos.1 as int),
        ensures
            r == visible(self@.board.status_at(pos.0 as int, pos.1 as int)),
    {
        proof {
            lemma_index_bounds(self@.game.width, self@.game.height, pos.0 as int, pos.1 as int);
        }
        CellState::from(self.game_state.get(pos))
    }

    /// Hands out the updates gathered since the last call, oldest first.
    pub fn get_ui_updates(&mut self) -> (r: Vec<UIUpdate>)
        ensures
            r@ == old(self)@.events,
            final(self)@ == old(self)@.with_events(Seq::empty()),
    {
        let mut taken: Vec<UIUpdate> = Vec::new();
        std::mem::swap(&mut self.ui_updates, &mut taken);
        taken
    }

    /// Flags every cell still veiled, with one update each.
    fn flag_rest(&mut self)
        requires
            old(self)@.board.wf(),
            old(self)@.board.width == old(self)@.game.width,
        ensures
            final(self)@.game == old(self)@.game,
            final(self)@.mines_spread == old(self)@.mines_spread,
            final(self)@.outcome == old(self)@.outcome,
            final(self)@.auto_unveil == old(self)@.auto_unveil,
            final(self)@.touch_mode == old(self)@.touch_mode,
            final(self)@.board.wf(),
            final(self)@.board.width == old(self)@.board.width,
            final(self)@.board.height == old(self)@.board.height,
            final(self)@.board.mine_count == old(self)@.board.mine_count,
            final(self)@.board.unveiled == old(self)@.board.unveiled,
            forall|i: int|
                0 <= i < old(self)@.board.area() ==> !(#[trigger] final(self)@.board.cells[i] is Veiled),
            forall|i: int|
                0 <= i < old(self)@.board.area() && #[trigger] final(self)@.board.cells[i]
                    != old(self)@.board.cells[i] ==> old(self)@.board.cells[i] is Veiled
                    && final(self)@.board.cells[i] is Flagged,
            extends(old(self)@.events, final(self)@.events),
            forall|j: int|
                old(self)@.events.len() <= j < final(self)@.events.len() ==> in_grid(
                    old(self)@.board.width,
                    old(self)@.board.height,
                    #[trigger] final(self)@.events[j].pos.0 as int,
                    final(self)@.events[j].pos.1 as int,
                ) && final(self)@.events[j].state == CellState::Flagged && final(self)@.board.status_at(
                    final(self)@.events[j].pos.0 as int,
                    final(self)@.events[j].pos.1 as int,
                ) is Flagged,
            forall|j: int|
                old(self)@.events.len() <= j < final(self)@.events.len() ==> old(self)@.board.status_at(
                    #[trigger] final(self)@.events[j].pos.0 as int,
                    final(self)@.events[j].pos.1 as int,
                ) is Veiled,
            forall|j1: int, j2: int|
                old(self)@.events.len() <= j1 < j2 < final(self)@.events.len() ==> #[trigger] final(self)@.events[j1].pos
                    != #[trigger] final(self)@.events[j2].pos,
            forall|a: int, b: int|
                in_grid(old(self)@.board.width, old(self)@.board.height, a, b) && #[trigger] final(self)@.board.status_at(a, b)
                    != old(self)@.board.status_at(a, b) ==> exists|j: int|
                    old(self)@.events.len() <= j < final(self)@.events.len() && final(self)@.events[j].pos == (
                    a as usize,
                    b as usize,
                ),
    {
        let ghost v0 = self@;
        let dim = self.game_state.get_dim();
        let area: usize = dim.0 * dim.1;
        let mut i: usize = 0;
        let mut x: usize = 0;
        let mut y: usize = 0;
        while i < area
            invariant
                v0 == old(self)@,
                v0.board.wf(),
                dim.0 == v0.board.width,
                dim.1 == v0.board.height,
                area == v0.board.area(),
                i <= area,
                x < dim.0,
                i == cell_index(dim.0 as int, x as int, y as int),
                self.game@ == v0.game,
                self.mines_spread == v0.mines_spread,
                self.outcome == v0.outcome,
                self.auto_unveil == v0.auto_unveil,
                self.touch_mode == v0.touch_mode,
                self@.board.wf(),
                self@.board.width == v0.board.width,
                self@.board.height == v0.board.height,
                self@.board.mine_count == v0.board.mine_count,
                self@.board.unveiled == v0.board.unveiled,
                forall|j: int| 0 <= j < i ==> !(#[trigger] self@.board.cells[j] is Veiled),
                forall|j: int|
                    0 <= j < area && #[trigger] self@.board.cells[j] != v0.board.cells[j] ==> j < i
                        && v0.board.cells[j] is Veiled && self@.board.cells[j] is Flagged,
                extends(v0.events, self@.events),
                forall|j: int|
                    v0.events.len() <= j < self@.events.len() ==> in_grid(
                        v0.board.width,
                        v0.board.height,
                        #[trigger] self@.events[j].pos.0 as int,
                        self@.events[j].pos.1 as int,
                    ) && self@.events[j].state == CellState::Flagged && self@.board.status_at(
                        self@.events[j].pos.0 as int,
                        self@.events[j].pos.1 as int,
                    ) is Flagged,
                forall|j: int|
                    v0.events.len() <= j < self@.events.len() ==> v0.board.status_at(
                        #[trigger] self@.events[j].pos.0 as int,
                        self@.events[j].pos.1 as int,
                    ) is Veiled && cell_index(
                        v0.board.width,
                        self@.events[j].pos.0 as int,
                        self@.events[j].pos.1 as int,
                    ) < i,
                forall|j1: int, j2: int|
                    v0.events.len() <= j1 < j2 < self@.events.len() ==> cell_index(
                        v0.board.width,
                        #[trigger] self@.events[j1].pos.0 as int,
                        self@.events[j1].pos.1 as int,
                    ) < cell_index(
                        v0.board.width,
                        #[trigger] self@.events[j2].pos.0 as int,
                        self@.events[j2].pos.1 as int,
                    ),
                forall|k: int|
                    0 <= k < area && #[trigger] self@.board.cells[k] != v0.board.cells[k] ==> exists|j: int|
                        v0.events.len() <= j < self@.events.len() && cell_index(
                            v0.board.width,
                            self@.events[j].pos.0 as int,
                            self@.events[j].pos.1 as int,
                        ) == k,
            decreases area - i,
        {
            proof {
                lemma_index_position(dim.0 as int, x as int, y as int);
                lemma_next_cell(dim.0 as int, x as int, y as int);
                assert(y < dim.1) by (nonlinear_arith)
                    requires
                        i == y * dim.0 + x,
                        i < dim.0 * dim.1,
                        x < dim.0,
                ;
            }
            if self.game_state.get((x, y)) == ICellState::Veiled {
                let ghost before = self@;
                self.game_state.set((x, y), ICellState::Flagged);
                self.ui_updates.push(UIUpdate { pos: (x, y), state: CellState::Flagged });
                proof {
                    let after = self@;
                    assert forall|j: int| v0.events.len() <= j < after.events.len() implies in_grid(
                        v0.board.width,
                        v0.board.height,
                        #[trigger] after.events[j].pos.0 as int,
                        after.events[j].pos.1 as int,
                    ) && after.events[j].state == CellState::Flagged && after.board.status_at(
                        after.events[j].pos.0 as int,
                        after.events[j].pos.1 as int,
                    ) is Flagged by {
                        if j < before.events.len() {
                            assert(after.events[j] == before.events[j]);
                            let p = before.events[j].pos;
                            lemma_index_bounds(v0.board.width, v0.board.height, p.0 as int, p.1 as int);
                        }
                    }
                    assert forall|j: int| v0.events.len() <= j < after.events.len() implies v0.board.status_at(
                        #[trigger] after.events[j].pos.0 as int,
                        after.events[j].pos.1 as int,
                    ) is Veiled && cell_index(
                        v0.board.width,
                        after.events[j].pos.0 as int,
                        after.events[j].pos.1 as int,
                    ) < i + 1 by {
                        if j < before.events.len() {
                            assert(after.events[j] == before.events[j]);
                        } else {
                            assert(before.board.cells[i as int] is Veiled);
                            assert(v0.board.cells[i as int] is Veiled);
                        }
                    }
                    assert forall|j1: int, j2: int|
                        v0.events.len() <= j1 < j2 < after.events.len() implies cell_index(
                        v0.board.width,
                        #[trigger] after.events[j1].pos.0 as int,
                        after.events[j1].pos.1 as int,
                    ) < cell_index(
                        v0.board.width,
                        #[trigger] after.events[j2].pos.0 as int,
                        after.events[j2].pos.1 as int,
                    ) by {
                        assert(after.events[j1] == before.events[j1]);
                        if j2 < before.events.len() {
                            assert(after.events[j2] == before.events[j2]);
                        }
                    }
                    assert forall|k: int|
                        0 <= k < area && #[trigger] after.board.cells[k] != v0.board.cells[k] implies exists|j: int|
                        v0.events.len() <= j < after.events.len() && cell_index(
                            v0.board.width,
                            after.events[j].pos.0 as int,
                            after.events[j].pos.1 as int,
                        ) == k by {
                        if k == i {
                            assert(after.events[before.events.len() as int].pos == (x, y));
                        } else {
                            let j = choose|j: int|
                                v0.events.len() <= j < before.events.len() && cell_index(
                                    v0.board.width,
                                    before.events[j].pos.0 as int,
                                    before.events[j].pos.1 as int,
                                ) == k;
                            assert(after.events[j] == before.events[j]);
                        }
                    }
                }
            }
            i = i + 1;
            if x + 1 == dim.0 {
                x = 0;
                y = y + 1;
            } else {
                x = x + 1;
            }
        }
        proof {
            let vf = self@;
            assert forall|j1: int, j2: int|
                v0.events.len() <= j1 < j2 < vf.events.len() implies #[trigger] vf.events[j1].pos
                != #[trigger] vf.events[j2].pos by {
                assert(cell_index(v0.board.width, vf.events[j1].pos.0 as int, vf.events[j1].pos.1 as int)
                    < cell_index(v0.board.width, vf.events[j2].pos.0 as int, vf.events[j2].pos.1 as int));
            }
            assert forall|a: int, b: int|
                in_grid(v0.board.width, v0.board.height, a, b) && #[trigger] vf.board.status_at(a, b)
                    != v0.board.status_at(a, b) implies exists|j: int|
                v0.events.len() <= j < vf.events.len() && vf.events[j].pos == (a as usize, b as usize) by {
                lemma_index_bounds(v0.board.width, v0.board.height, a, b);
                lemma_grid_shape(v0.board.width, v0.board.height);
                let k = cell_index(v0.board.width, a, b);
                let j = choose|j: int|
                    v0.events.len() <= j < vf.events.len() && cell_index(
                        v0.board.width,
                        vf.events[j].pos.0 as int,
                        vf.events[j].pos.1 as int,
                    ) == k;
                lemma_index_injective(
                    v0.board.width,
                    v0.board.height,
                    vf.events[j].pos.0 as int,
                    vf.events[j].pos.1 as int,
                    a,
                    b,
                );
            }
        }
    }

    /// Pushes a reveal of every cell in the 3x3 window around `pos`, so that the
    /// window's first cell comes off the stack first.
    fn unveil_surrounding(&self, pos: (usize, usize), stack: &mut Vec<Task>)
        requires
            self@.board.wf(),
            in_grid(self@.board.width, self@.board.height, pos.0 as int, pos.1 as int),
        ensures
            extends(old(stack)@, final(stack)@),
            tasks_in_grid(self@.board.width, self@.board.height, final(stack)@, old(stack)@.len() as int),
            stack_weight(final(stack)@) <= stack_weight(old(stack)@) + 9,
            forall|a: int, b: int|
                in_grid(self@.board.width, self@.board.height, a, b) && #[trigger] touching(a, b, pos.0 as int, pos.1 as int)
                    ==> exists|t: int|
                    old(stack)@.len() <= t < final(stack)@.len() && final(stack)@[t] == Task::Reveal(
                        (a as usize, b as usize),
                    ),
            forall|t: int|
                old(stack)@.len() <= t < final(stack)@.len() ==> #[trigger] final(stack)@[t] is Reveal
                    && touching(
                    task_pos(final(stack)@[t]).0 as int,
                    task_pos(final(stack)@[t]).1 as int,
                    pos.0 as int,
                    pos.1 as int,
                ),
    {
        let ghost s0 = stack@;
        let ghost b = self@.board;
        let mut k: usize = 9;
        while k > 0
            invariant
                s0 == old(stack)@,
                b == self@.board,
                b.wf(),
                in_grid(b.width, b.height, pos.0 as int, pos.1 as int),
                k <= 9,
                extends(s0, stack@),
                tasks_in_grid(b.width, b.height, stack@, s0.len() as int),
                stack_weight(stack@) <= stack_weight(s0) + (9 - k),
                forall|a: int, c: int|
                    in_grid(b.width, b.height, a, c) && #[trigger] touching(a, c, pos.0 as int, pos.1 as int)
                        && window_slot(pos.0 as int, pos.1 as int, a, c) >= k ==> exists|t: int|
                        s0.len() <= t < stack@.len() && stack@[t] == Task::Reveal(
                            (a as usize, c as usize),
                        ),
                forall|t: int|
                    s0.len() <= t < stack@.len() ==> #[trigger] stack@[t] is Reveal && touching(
                        task_pos(stack@[t]).0 as int,
                        task_pos(stack@[t]).1 as int,
                        pos.0 as int,
                        pos.1 as int,
                    ),
            decreases k,
        {
            k = k - 1;
            let ghost sb = stack@;
            if let Some(n) = self.game_state.window_cell(pos, k) {
                stack.push(Task::Reveal(n));
                proof {
                    lemma_weight_push(sb, Task::Reveal(n));
                    lemma_window_slot(pos.0 as int, pos.1 as int, k as int);
                    assert(stack@[sb.len() as int] == Task::Reveal(n));
                }
            }
            proof {
                lemma_window_slot(pos.0 as int, pos.1 as int, k as int);
                assert forall|a: int, c: int|
                    in_grid(b.width, b.height, a, c) && #[trigger] touching(a, c, pos.0 as int, pos.1 as int)
                        && window_slot(pos.0 as int, pos.1 as int, a, c) >= k implies exists|t: int|
                    s0.len() <= t < stack@.len() && stack@[t] == Task::Reveal((a as usize, c as usize)) by {
                    lemma_slot_inverse(pos.0 as int, pos.1 as int, a, c);
                    if window_slot(pos.0 as int, pos.1 as int, a, c) == k {
                        assert(stack@[sb.len() as int] == Task::Reveal((a as usize, c as usize)));
                    } else {
                        let t = choose|t: int|
                            s0.len() <= t < sb.len() && sb[t] == Task::Reveal((a as usize, c as usize));
                        assert(stack@[t] == sb[t]);
                    }
                }
            }
        }
    }

    /// Pushes a flag of every cell in the 3x3 window around `pos`.
    fn flag_surrounding(&self, pos: (usize, usize), stack: &mut Vec<Task>)
        requires
            self@.board.wf(),
            in_grid(self@.board.width, self@.board.height, pos.0 as int, pos.1 as int),
        ensures
            extends(old(stack)@, final(stack)@),
            tasks_in_grid(self@.board.width, self@.board.height, final(stack)@, old(stack)@.len() as int),
            stack_weight(final(stack)@) <= stack_weight(old(stack)@) + 9,
            forall|a: int, b: int|
                in_grid(self@.board.width, self@.board.height, a, b) && #[trigger] touching(a, b, pos.0 as int, pos.1 as int)
                    ==> exists|t: int|
                    old(stack)@.len() <= t < final(stack)@.len() && final(stack)@[t] == Task::Flag(
                        (a as usize, b as usize),
                    ),
            forall|t: int|
                old(stack)@.len() <= t < final(stack)@.len() ==> #[trigger] final(stack)@[t] is Flag
                    && touching(
                    task_pos(final(stack)@[t]).0 as int,
                    task_pos(final(stack)@[t]).1 as int,
                    pos.0 as int,
                    pos.1 as int,
                ),
    {
        let ghost s0 = stack@;
        let ghost b = self@.board;
        let mut k: usize = 9;
        while k > 0
            invariant
                s0 == old(stack)@,
                b == self@.board,
                b.wf(),
                in_grid(b.width, b.height, pos.0 as int, pos.1 as int),
                k <= 9,
                extends(s0, stack@),
                tasks_in_grid(b.width, b.height, stack@, s0.len() as int),
                stack_weight(stack@) <= stack_weight(s0) + (9 - k),
                forall|a: int, c: int|
                    in_grid(b.width, b.height, a, c) && #[trigger] touching(a, c, pos.0 as int, pos.1 as int)
                        && window_slot(pos.0 as int, pos.1 as int, a, c) >= k ==> exists|t: int|
                        s0.len() <= t < stack@.len() && stack@[t] == Task::Flag(
                            (a as usize, c as usize),
                        ),
                forall|t: int|
                    s0.len() <= t < stack@.len() ==> #[trigger] stack@[t] is Flag && touching(
                        task_pos(stack@[t]).0 as int,
                        task_pos(stack@[t]).1 as int,
                        pos.0 as int,
                        pos.1 as int,
                    ),
            decreases k,
        {
            k = k - 1;
            let ghost sb = stack@;
            if let Some(n) = self.game_state.window_cell(pos, k) {
                stack.push(Task::Flag(n));
                proof {
                    lemma_weight_push(sb, Task::Flag(n));
                    lemma_window_slot(pos.0 as int, pos.1 as int, k as int);
                    assert(stack@[sb.len() as int] == Task::Flag(n));
                }
            }
            proof {
                lemma_window_slot(pos.0 as int, pos.1 as int, k as int);
                assert forall|a: int, c: int|
                    in_grid(b.width, b.height, a, c) && #[trigger] touching(a, c, pos.0 as int, pos.1 as int)
                        && window_slot(pos.0 as int, pos.1 as int, a, c) >= k implies exists|t: int|
                    s0.len() <= t < stack@.len() && stack@[t] == Task::Flag((a as usize, c as usize)) by {
                    lemma_slot_inverse(pos.0 as int, pos.1 as int, a, c);
                    if window_slot(pos.0 as int, pos.1 as int, a, c) == k {
                        assert(stack@[sb.len() as int] == Task::Flag((a as usize, c as usize)));
                    } else {
                        let t = choose|t: int|
                            s0.len() <= t < sb.len() && sb[t] == Task::Flag((a as usize, c as usize));
                        assert(stack@[t] == sb[t]);
                    }
                }
            }
        }
    }

    /// Pushes a chord of every cell in the 3x3 window around `center`.
    fn unveil_around_sis(&self, center: (usize, usize), stack: &mut Vec<Task>)
        requires
            self@.board.wf(),
            in_grid(self@.board.width, self@.board.height, center.0 as int, center.1 as int),
        ensures
            extends(old(stack)@, final(stack)@),
            tasks_in_grid(self@.board.width, self@.board.height, final(stack)@, old(stack)@.len() as int),
            stack_weight(final(stack)@) <= stack_weight(old(stack)@) + 90,
            forall|a: int, b: int|
                in_grid(self@.board.width, self@.board.height, a, b) && #[trigger] touching(a, b, center.0 as int, center.1 as int)
                    ==> exists|t: int|
                    old(stack)@.len() <= t < final(stack)@.len() && final(stack)@[t] == Task::Chord(
                        (a as usize, b as usize),
                    ),
            forall|t: int| old(stack)@.len() <= t < final(stack)@.len() ==> #[trigger] final(stack)@[t] is Chord,
    {
        let ghost s0 = stack@;
        let ghost b = self@.board;
        let mut k: usize = 9;
        while k > 0
            invariant
                s0 == old(stack)@,
                b == self@.board,
                b.wf(),
                in_grid(b.width, b.height, center.0 as int, center.1 as int),
                k <= 9,
                extends(s0, stack@),
                tasks_in_grid(b.width, b.height, stack@, s0.len() as int),
                stack_weight(stack@) <= stack_weight(s0) + 10 * (9 - k),
                forall|a: int, c: int|
                    in_grid(b.width, b.height, a, c) && #[trigger] touching(a, c, center.0 as int, center.1 as int)
                        && window_slot(center.0 as int, center.1 as int, a, c) >= k ==> exists|t: int|
                        s0.len() <= t < stack@.len() && stack@[t] == Task::Chord(
                            (a as usize, c as usize),
                        ),
                forall|t: int| s0.len() <= t < stack@.len() ==> #[trigger] stack@[t] is Chord,
            decreases k,
        {
            k = k - 1;
            let ghost sb = stack@;
            if let Some(n) = self.game_state.window_cell(center, k) {
                stack.push(Task::Chord(n));
                proof {
                    lemma_weight_push(sb, Task::Chord(n));
                    assert(stack@[sb.len() as int] == Task::Chord(n));
                }
            }
            proof {
                lemma_window_slot(center.0 as int, center.1 as int, k as int);
                assert forall|a: int, c: int|
                    in_grid(b.width, b.height, a, c) && #[trigger] touching(a, c, center.0 as int, center.1 as int)
                        && window_slot(center.0 as int, center.1 as int, a, c) >= k implies exists|t: int|
                    s0.len() <= t < stack@.len() && stack@[t] == Task::Chord((a as usize, c as usize)) by {
                    lemma_slot_inverse(center.0 as int, center.1 as int, a, c);
                    if window_slot(center.0 as int, center.1 as int, a, c) == k {
                        assert(stack@[sb.len() as int] == Task::Chord((a as usize, c as usize)));
                    } else {
                        let t = choose|t: int|
                            s0.len() <= t < sb.len() && sb[t] == Task::Chord((a as usize, c as usize));
                        assert(stack@[t] == sb[t]);
                    }
                }
            }
        }
    }

    /// Reveals the neighbours of the numbered cell `pos` when its flags match its number,
    /// or flags them when its possible mines do; otherwise pushes nothing.
    fn chord(&self, pos: (usize, usize), stack: &mut Vec<Task>)
        requires
            self@.board.wf(),
            in_grid(self@.board.width, self@.board.height, pos.0 as int, pos.1 as int),
        ensures
            extends(old(stack)@, final(stack)@),
            tasks_in_grid(self@.board.width, self@.board.height, final(stack)@, old(stack)@.len() as int),
            stack_weight(final(stack)@) <= stack_weight(old(stack)@) + 9,
            self@.board.classify(pos.0 as int, pos.1 as int) == CellEnvironment::AllSafe
                || self@.board.classify(pos.0 as int, pos.1 as int) == CellEnvironment::AllMines
                ==> forall|a: int, b: int|
                in_grid(self@.board.width, self@.board.height, a, b) && #[trigger] touching(a, b, pos.0 as int, pos.1 as int)
                    ==> exists|t: int|
                    old(stack)@.len() <= t < final(stack)@.len() && (final(stack)@[t] == Task::Reveal(
                        (a as usize, b as usize),
                    ) || final(stack)@[t] == Task::Flag((a as usize, b as usize))),
            forall|t: int|
                old(stack)@.len() <= t < final(stack)@.len() ==> {
                    &&& self@.board.classify(pos.0 as int, pos.1 as int) == CellEnvironment::AllSafe
                        ==> #[trigger] final(stack)@[t] is Reveal && touching(
                        task_pos(final(stack)@[t]).0 as int,
                        task_pos(final(stack)@[t]).1 as int,
                        pos.0 as int,
                        pos.1 as int,
                    )
                    &&& self@.board.classify(pos.0 as int, pos.1 as int) == CellEnvironment::AllMines
                        ==> final(stack)@[t] is Flag && touching(
                        task_pos(final(stack)@[t]).0 as int,
                        task_pos(final(stack)@[t]).1 as int,
                        pos.0 as int,
                        pos.1 as int,
                    )
                },
            !(self@.board.classify(pos.0 as int, pos.1 as int) == CellEnvironment::AllSafe)
                && !(self@.board.classify(pos.0 as int, pos.1 as int) == CellEnvironment::AllMines)
                ==> final(stack)@ == old(stack)@,
    {
        match self.game_state.safe_cell_environment(pos) {
            CellEnvironment::AllSafe => self.unveil_surrounding(pos, stack),
            CellEnvironment::AllMines => self.flag_surrounding(pos, stack),
            _ => {},
        }
    }

    /// Reveals `pos` if it is veiled, placing the mines first on the first reveal of the
    /// session. A mine loses the game and shows every mine; the last safe cell wins it
    /// and flags what is left; a zero pushes a reveal of its window.
    fn unveil_step(&mut self, pos: (usize, usize), stack: &mut Vec<Task>)
        requires
            old(self)@.wf(),
            old(self)@.outcome == Outcome::InProgress,
            in_grid(old(self)@.game.width, old(self)@.game.height, pos.0 as int, pos.1 as int),
        ensures
            old(self)@.advances(final(self)@),
            extends(old(stack)@, final(stack)@),
            tasks_in_grid(old(self)@.game.width, old(self)@.game.height, final(stack)@, old(stack)@.len() as int),
            !(old(self)@.board.status_at(pos.0 as int, pos.1 as int) is Veiled) ==> final(self)@
                == old(self)@ && final(stack)@ == old(stack)@,
            old(self)@.board.status_at(pos.0 as int, pos.1 as int) is Veiled ==> {
                &&& final(self)@.board.status_at(pos.0 as int, pos.1 as int) is Safe
                    || (final(self)@.board.status_at(pos.0 as int, pos.1 as int) is Mine
                    && final(self)@.outcome == Outcome::Lost)
                &&& final(self)@.board.veiled_count() < old(self)@.board.veiled_count()
                &&& stack_weight(final(stack)@) <= stack_weight(old(stack)@) + 100
            },
            forall|a: int, b: int|
                in_grid(old(self)@.game.width, old(self)@.game.height, a, b) && touching(
                    a,
                    b,
                    pos.0 as int,
                    pos.1 as int,
                ) && old(self)@.board.status_at(pos.0 as int, pos.1 as int) is Veiled 
                    && final(self)@.board.status_at(pos.0 as int, pos.1 as int) == ICellState::Safe(0)
                    ==> !(#[trigger] final(self)@.board.status_at(a, b) is Veiled) || exists|t: int|
                    old(stack)@.len() <= t < final(stack)@.len() && final(stack)@[t] == Task::Reveal(
                        (a as usize, b as usize),
                    ),
            forall|x: int, y: int|
                in_grid(old(self)@.game.width, old(self)@.game.height, x, y) && (x != pos.0 || y
                    != pos.1) ==> !(#[trigger] final(self)@.board.status_at(x, y) is Safe)
                    || final(self)@.board.status_at(x, y) == old(self)@.board.status_at(x, y),
            old(self)@.board.status_at(pos.0 as int, pos.1 as int) is Veiled && !old(self)@.mines_spread
                && (forall|i: int| 0 <= i < old(self)@.area() ==> !#[trigger] old(self)@.game.mines[i])
                ==> final(self)@.mines_spread && final(self)@.game.clear_around(pos.0 as int, pos.1 as int),
            !old(self)@.auto_unveil ==> forall|t: int|
                old(stack)@.len() <= t < final(stack)@.len() ==> #[trigger] final(stack)@[t] is Reveal
                    && touching(
                    task_pos(final(stack)@[t]).0 as int,
                    task_pos(final(stack)@[t]).1 as int,
                    pos.0 as int,
                    pos.1 as int,
                ) && final(self)@.board.status_at(pos.0 as int, pos.1 as int) == ICellState::Safe(0),
            final(self)@.outcome != Outcome::Won ==> forall|x: int, y: int|
                in_grid(old(self)@.game.width, old(self)@.game.height, x, y) && (x != pos.0 || y != pos.1)
                    ==> #[trigger] final(self)@.board.status_at(x, y) == old(self)@.board.status_at(x, y),
            old(self)@.auto_unveil && final(self)@.outcome == Outcome::InProgress && old(self)@.board.status_at(pos.0 as int, pos.1 as int) is Veiled
                ==> exists|t: int| old(stack)@.len() <= t < final(stack)@.len() && final(stack)@[t] == Task::Scan(pos),
            old(self)@.board.status_at(pos.0 as int, pos.1 as int) is Veiled && final(self)@.game.mine_at(pos.0 as int, pos.1 as int)
                ==> final(self)@.outcome == Outcome::Lost && final(self)@.board.cells == old(self)@.board.cells.update(
                cell_index(old(self)@.game.width, pos.0 as int, pos.1 as int),
                ICellState::Mine,
            ) && final(self)@.board.unveiled == old(self)@.board.unveiled && final(self)@.board.flags
                == old(self)@.board.flags && final(self)@.events == old(self)@.events + mine_events(
                final(self)@.game,
                final(self)@.area(),
            ) && final(stack)@ == old(stack)@,
            old(self)@.board.status_at(pos.0 as int, pos.1 as int) is Veiled && !final(self)@.game.mine_at(pos.0 as int, pos.1 as int)
                ==> final(self)@.outcome != Outcome::Lost,
            forall|i: int| 0 <= i < old(self)@.area() && #[trigger] old(self)@.game.mines[i] ==> final(self)@.game.mines[i],
            old(self)@.board.status_at(pos.0 as int, pos.1 as int) is Veiled && !final(self)@.game.mine_at(pos.0 as int, pos.1 as int)
                ==> final(self)@.events.len() > old(self)@.events.len() && final(self)@.events[old(self)@.events.len() as int]
                == (UIUpdate { pos, state: visible(final(self)@.board.status_at(pos.0 as int, pos.1 as int)) }),
            old(self)@.board.status_at(pos.0 as int, pos.1 as int) is Veiled && final(self)@.outcome != Outcome::Won
                ==> final(self)@.board.cells == old(self)@.board.cells.update(
                cell_index(old(self)@.game.width, pos.0 as int, pos.1 as int),
                final(self)@.board.status_at(pos.0 as int, pos.1 as int),
            ),
            forall|t: int|
                old(stack)@.len() <= t < final(stack)@.len() ==> #[trigger] final(stack)@[t] == Task::Scan(pos) || (
                final(stack)@[t] is Reveal && touching(
                    task_pos(final(stack)@[t]).0 as int,
                    task_pos(final(stack)@[t]).1 as int,
                    pos.0 as int,
                    pos.1 as int,
                ) && final(self)@.board.status_at(pos.0 as int, pos.1 as int) == ICellState::Safe(0)),
    {
        let ghost v0 = self@;
        let ghost px = pos.0 as int;
        let ghost py = pos.1 as int;
        if self.game_state.get(pos) != ICellState::Veiled {
            return;
        }
        if !self.mines_spread {
            self.game.spread_mines(pos);
            self.mines_spread = true;
        }
        let ghost v1 = self@;
        proof {
            assert forall|x: int, y: int|
                in_grid(v1.game.width, v1.game.height, x, y) implies !(#[trigger] v1.board.status_at(x, y) is Safe) || v1.game == v0.game by {
                lemma_index_bounds(v1.game.width, v1.game.height, x, y);
            }
            assert(v1.wf());
        }
        let label = self.game.get_cell_label(pos);
        match label {
            CellLabel::Mine => {
                self.game_state.set(pos, ICellState::Mine);
                self.outcome = Outcome::Lost;
                let ghost v2 = self@;
                proof {
                    lemma_write_cell(v1, v2, px, py, ICellState::Mine);
                    lemma_veiled_drop(v1.board, v2.board, px, py, ICellState::Mine);
                    assert(v2.wf());
                }
                self.show_mines();
                proof {
                    let v3 = self@;
                    assert(v2.board.cells == v1.board.cells.update(cell_index(v0.game.width, px, py), ICellState::Mine));
                    assert(v3.events.subrange(
                        v3.events.len() - mine_events(v3.game, v3.area()).len(),
                        v3.events.len() as int,
                    ) =~= mine_events(v3.game, v3.area()));
                    assert(v3.wf());
                    assert(extends(v0.events, v3.events));
                    assert forall|i: int|
                        0 <= i < v0.area() && #[trigger] v3.board.cells[i] != v0.board.cells[i] implies v0.board.cells[i] is Veiled by {
                        lemma_index_bounds(v0.game.width, v0.game.height, px, py);
                    }
                    assert(v3.events.len() >= mine_events(v3.game, v3.area()).len());
                    let me = mine_events(v3.game, v3.area());
                    lemma_mine_events(v3.game, v3.area());
                    lemma_grid_shape(v0.game.width, v0.game.height);
                    assert forall|j: int| v0.events.len() <= j < v3.events.len() implies in_grid(
                        v3.game.width,
                        v3.game.height,
                        #[trigger] v3.events[j].pos.0 as int,
                        v3.events[j].pos.1 as int,
                    ) && v3.events[j].state != CellState::Veiled && (visible(
                        v3.board.status_at(v3.events[j].pos.0 as int, v3.events[j].pos.1 as int),
                    ) == v3.events[j].state || (v3.outcome == Outcome::Lost && v3.events[j].state
                        == CellState::Mine)) by {
                        assert(v3.events[j] == me[j - v0.events.len()]);
                        assert(me[j - v0.events.len()].state == CellState::Mine);
                    }
                    assert forall|a: int, b: int|
                        in_grid(v3.game.width, v3.game.height, a, b) && #[trigger] v3.board.status_at(a, b)
                            != v0.board.status_at(a, b) implies exists|j: int|
                        v0.events.len() <= j < v3.events.len() && v3.events[j].pos == (
                        a as usize,
                        b as usize,
                    ) && v3.events[j].state == visible(v3.board.status_at(a, b)) by {
                        assert(a == px && b == py);
                        let i = cell_index(v0.game.width, px, py);
                        lemma_index_bounds(v0.game.width, v0.game.height, px, py);
                        assert(v3.game.mines[i]);
                        let k = choose|k: int|
                            0 <= k < me.len() && cell_index(
                                v3.game.width,
                                me[k].pos.0 as int,
                                me[k].pos.1 as int,
                            ) == i;
                        assert(me[k].state == CellState::Mine);
                        lemma_index_injective(
                            v0.game.width,
                            v0.game.height,
                            me[k].pos.0 as int,
                            me[k].pos.1 as int,
                            px,
                            py,
                        );
                        assert(v3.events[v0.events.len() + k] == me[k]);
                    }
                    assert(v0.board.status_at(px, py) is Veiled && v3.board.status_at(px, py) is Mine);
                    assert(v0.advances(v3));
                }
            },
            CellLabel::Safe(n) => {
                self.game_state.set(pos, ICellState::Safe(n));
                self.ui_updates.push(UIUpdate { pos, state: CellState::Safe(n) });
                let ghost v2 = self@;
                proof {
                    lemma_index_bounds(v0.game.width, v0.game.height, px, py);
                    assert forall|i: int| 0 <= i < v2.area() implies !(#[trigger] v2.board.cells[i] is Mine) by {
                        if i != cell_index(v0.game.width, px, py) {
                            assert(v2.board.cells[i] == v1.board.cells[i]);
                        }
                    }
                    lemma_write_cell(v1, v2, px, py, ICellState::Safe(n));
                    lemma_veiled_drop(v1.board, v2.board, px, py, ICellState::Safe(n));
                    lemma_unveiled_fits(v1);
                }
                let dim = self.game.get_dim();
                let area: usize = dim.0 * dim.1;
                if self.game_state.get_unveiled_count() == area - self.game.get_mine_count() {
                    self.outcome = Outcome::Won;
                    self.flag_rest();
                    proof {
                        let v3 = self@;
                        assert forall|i: int| 0 <= i < v3.area() && #[trigger] v3.board.veiled()(i) implies v2.board.veiled()(i) by {}
                        lemma_count_mono(v3.area(), v3.board.veiled(), v2.board.veiled());
                        assert forall|x: int, y: int| in_grid(v3.game.width, v3.game.height, x, y) implies #[trigger] v3.board.status_at(x, y) == v2.board.status_at(x, y) || v3.board.status_at(x, y) is Flagged by {
                            lemma_index_bounds(v3.game.width, v3.game.height, x, y);
                        }
                        assert forall|i: int| 0 <= i < v3.area() implies !(#[trigger] v3.board.cells[i] is Mine) by {
                            assert(!(v2.board.cells[i] is Mine));
                        }
                        assert forall|i: int| 0 <= i < v3.area() && #[trigger] v3.board.cells[i] is Safe implies !v3.game.mines[i] by {
                            assert(v3.board.cells[i] == v2.board.cells[i]);
                        }
                        lemma_won_flags(v3);
                        assert(v3.wf());
                        assert forall|i: int|
                            0 <= i < v0.area() && #[trigger] v3.board.cells[i] != v0.board.cells[i] implies v0.board.cells[i] is Veiled by {
                            lemma_index_bounds(v0.game.width, v0.game.height, px, py);
                        }
                        lemma_index_bounds(v0.game.width, v0.game.height, px, py);
                        assert(v3.events[v0.events.len() as int] == v2.events[v0.events.len() as int]);
                        assert forall|j: int| v0.events.len() <= j < v3.events.len() implies in_grid(
                            v3.game.width,
                            v3.game.height,
                            #[trigger] v3.events[j].pos.0 as int,
                            v3.events[j].pos.1 as int,
                        ) && v3.events[j].state == visible(
                            v3.board.status_at(v3.events[j].pos.0 as int, v3.events[j].pos.1 as int),
                        ) && v3.board.status_at(v3.events[j].pos.0 as int, v3.events[j].pos.1 as int)
                            != v0.board.status_at(v3.events[j].pos.0 as int, v3.events[j].pos.1 as int) by {
                            if j == v0.events.len() {
                                assert(v3.board.status_at(px, py) == v2.board.status_at(px, py));
                            } else {
                                let q = v3.events[j].pos;
                                assert(v2.board.status_at(q.0 as int, q.1 as int) is Veiled);
                                if q.0 as int != px || q.1 as int != py {
                                    assert(v2.board.status_at(q.0 as int, q.1 as int) == v1.board.status_at(q.0 as int, q.1 as int));
                                }
                            }
                        }
                        assert forall|j1: int, j2: int|
                            v0.events.len() <= j1 < j2 < v3.events.len() implies #[trigger] v3.events[j1].pos
                            != #[trigger] v3.events[j2].pos by {
                            if j1 == v0.events.len() {
                                let q = v3.events[j2].pos;
                                assert(v2.board.status_at(q.0 as int, q.1 as int) is Veiled);
                                assert(v3.events[j1].pos == pos);
                            }
                        }
                        assert forall|a: int, b: int|
                            in_grid(v3.game.width, v3.game.height, a, b) && #[trigger] v3.board.status_at(a, b)
                                != v0.board.status_at(a, b) implies exists|j: int|
                            v0.events.len() <= j < v3.events.len() && v3.events[j].pos == (
                            a as usize,
                            b as usize,
                        ) && v3.events[j].state == visible(v3.board.status_at(a, b)) by {
                            if v3.board.status_at(a, b) == v2.board.status_at(a, b) {
                                assert(a == px && b == py);
                                assert(v3.events[v0.events.len() as int].pos == pos);
                            } else {
                                let j = choose|j: int|
                                    v2.events.len() <= j < v3.events.len() && v3.events[j].pos == (
                                    a as usize,
                                    b as usize,
                                );
                                assert(v3.board.status_at(a, b) is Flagged);
                            }
                        }
                        assert(v0.advances(v3));
                        assert(v3.board.status_at(px, py) is Safe);
                        assert forall|a: int, b: int| in_grid(v0.game.width, v0.game.height, a, b) implies !(#[trigger] v3.board.status_at(a, b) is Veiled) by {
                            lemma_index_bounds(v0.game.width, v0.game.height, a, b);
                        }
                    }
                } else {
                    proof {
                        assert(v2.wf());
                    }
                    let ghost s1 = stack@;
                    if self.auto_unveil {
                        stack.push(Task::Scan(pos));
                        proof {
                            lemma_weight_push(s1, Task::Scan(pos));
                        }
                    }
                    let ghost s2 = stack@;
                    if n == 0 {
                        self.unveil_surrounding(pos, stack);
                    }
                    proof {
                        if self.auto_unveil {
                            assert(s2[s1.len() as int] == Task::Scan(pos));
                            assert(stack@[s1.len() as int] == s2[s1.len() as int]);
                        }
                        assert forall|t: int| s1.len() <= t < stack@.len() implies #[trigger] stack@[t] == Task::Scan(pos) || (
                            stack@[t] is Reveal && touching(
                                task_pos(stack@[t]).0 as int,
                                task_pos(stack@[t]).1 as int,
                                pos.0 as int,
                                pos.1 as int,
                            ) && self@.board.status_at(pos.0 as int, pos.1 as int) == ICellState::Safe(0)) by {
                            if t < s2.len() {
                                assert(stack@[t] == s2[t]);
                            }
                        }
                    }
                    proof {
                        assert forall|i: int|
                            0 <= i < v0.area() && #[trigger] v2.board.cells[i] != v0.board.cells[i] implies v0.board.cells[i] is Veiled by {
                            lemma_index_bounds(v0.game.width, v0.game.height, px, py);
                        }
                        assert forall|a: int, b: int|
                            in_grid(v2.game.width, v2.game.height, a, b) && #[trigger] v2.board.status_at(a, b)
                                != v0.board.status_at(a, b) implies exists|j: int|
                            v0.events.len() <= j < v2.events.len() && v2.events[j].pos == (
                            a as usize,
                            b as usize,
                        ) && v2.events[j].state == visible(v2.board.status_at(a, b)) by {
                            assert(a == px && b == py);
                            assert(v2.events[v0.events.len() as int].pos == pos);
                        }
                        assert(v0.advances(v2));
                    }
                }
            },
        }
    }

    /// Flags `pos` if it is veiled, then queues an assist scan around it when assisting.
    fn flag_step(&mut self, pos: (usize, usize), stack: &mut Vec<Task>)
        requires
            old(self)@.wf(),
            old(self)@.outcome == Outcome::InProgress,
            in_grid(old(self)@.game.width, old(self)@.game.height, pos.0 as int, pos.1 as int),
        ensures
            old(self)@.advances(final(self)@),
            extends(old(stack)@, final(stack)@),
            tasks_in_grid(old(self)@.game.width, old(self)@.game.height, final(stack)@, old(stack)@.len() as int),
            !(old(self)@.board.status_at(pos.0 as int, pos.1 as int) is Veiled) ==> final(self)@
                == old(self)@ && final(stack)@ == old(stack)@,
            old(self)@.board.status_at(pos.0 as int, pos.1 as int) is Veiled ==> {
                &&& final(self)@.board.status_at(pos.0 as int, pos.1 as int) is Flagged
                &&& final(self)@.board.veiled_count() < old(self)@.board.veiled_count()
                &&& stack_weight(final(stack)@) <= stack_weight(old(stack)@) + 91
            },
            forall|x: int, y: int|
                in_grid(old(self)@.game.width, old(self)@.game.height, x, y) ==> #[trigger] final(self)@.board.status_at(x, y)
                    == old(self)@.board.status_at(x, y) || final(self)@.board.status_at(x, y) is Flagged,
            !old(self)@.auto_unveil ==> final(stack)@ == old(stack)@,
            forall|t: int| old(stack)@.len() <= t < final(stack)@.len() ==> #[trigger] final(stack)@[t] == Task::Scan(pos),
            forall|x: int, y: int|
                in_grid(old(self)@.game.width, old(self)@.game.height, x, y) && (x != pos.0 || y != pos.1)
                    ==> #[trigger] final(self)@.board.status_at(x, y) == old(self)@.board.status_at(x, y),
            old(self)@.auto_unveil && old(self)@.board.status_at(pos.0 as int, pos.1 as int) is Veiled
                ==> exists|t: int| old(stack)@.len() <= t < final(stack)@.len() && final(stack)@[t] == Task::Scan(pos),
            old(self)@.board.status_at(pos.0 as int, pos.1 as int) is Veiled ==> {
                &&& final(self)@.board.cells == old(self)@.board.cells.update(
                    cell_index(old(self)@.game.width, pos.0 as int, pos.1 as int),
                    ICellState::Flagged,
                )
                &&& final(self)@.board.flags == old(self)@.board.flags + 1
                &&& final(self)@.events == old(self)@.events.push(UIUpdate { pos, state: CellState::Flagged })
                &&& final(self)@.outcome == old(self)@.outcome
                &&& final(self)@.game == old(self)@.game
                &&& final(self)@.mines_spread == old(self)@.mines_spread
                &&& !old(self)@.auto_unveil ==> final(self)@ == old(self)@.flagged_at(pos)
            },
    {
        let ghost v0 = self@;
        let ghost px = pos.0 as int;
        let ghost py = pos.1 as int;
        if self.game_state.get(pos) != ICellState::Veiled {
            return;
        }
        self.game_state.set(pos, ICellState::Flagged);
        self.ui_updates.push(UIUpdate { pos, state: CellState::Flagged });
        let ghost v1 = self@;
        proof {
            lemma_write_cell(v0, v1, px, py, ICellState::Flagged);
            lemma_veiled_drop(v0.board, v1.board, px, py, ICellState::Flagged);
            lemma_index_bounds(v0.game.width, v0.game.height, px, py);
            assert(v1.wf());
            assert forall|i: int|
                0 <= i < v0.area() && #[trigger] v1.board.cells[i] != v0.board.cells[i] implies v0.board.cells[i] is Veiled by {}
            assert forall|a: int, b: int|
                in_grid(v1.game.width, v1.game.height, a, b) && #[trigger] v1.board.status_at(a, b)
                    != v0.board.status_at(a, b) implies exists|j: int|
                v0.events.len() <= j < v1.events.len() && v1.events[j].pos == (a as usize, b as usize)
                    && v1.events[j].state == visible(v1.board.status_at(a, b)) by {
                assert(a == px && b == py);
                assert(v1.events[v0.events.len() as int].pos == pos);
            }
            assert(v0.advances(v1));
            assert(v1.board.unveiled == v0.board.unveiled);
            assert(v1.board == v0.flagged_at(pos).board);
        }
        if self.auto_unveil {
            let ghost sb = stack@;
            stack.push(Task::Scan(pos));
            proof {
                lemma_weight_push(sb, Task::Scan(pos));
            }
        }
    }

    /// Veils `pos` again if it is flagged.
    fn unflag(&mut self, pos: (usize, usize))
        requires
            old(self)@.wf(),
            old(self)@.outcome == Outcome::InProgress,
            in_grid(old(self)@.game.width, old(self)@.game.height, pos.0 as int, pos.1 as int),
        ensures
            final(self)@.wf(),
            !(old(self)@.board.status_at(pos.0 as int, pos.1 as int) is Flagged) ==> final(self)@
                == old(self)@,
            old(self)@.board.status_at(pos.0 as int, pos.1 as int) is Flagged ==> {
                &&& final(self)@.game == old(self)@.game
                &&& final(self)@.board == old(self)@.board.with_cell(
                    pos.0 as int,
                    pos.1 as int,
                    ICellState::Veiled,
                )
                &&& final(self)@.events == old(self)@.events.push(
                    UIUpdate { pos, state: CellState::Veiled },
                )
                &&& final(self)@.outcome == old(self)@.outcome
                &&& final(self)@.mines_spread == old(self)@.mines_spread
                &&& final(self)@.auto_unveil == old(self)@.auto_unveil
                &&& final(self)@.touch_mode == old(self)@.touch_mode
            },
    {
        let ghost v0 = self@;
        let ghost px = pos.0 as int;
        let ghost py = pos.1 as int;
        if self.game_state.get(pos) != ICellState::Flagged {
            return;
        }
        self.game_state.set(pos, ICellState::Veiled);
        self.ui_updates.push(UIUpdate { pos, state: CellState::Veiled });
        proof {
            let v1 = self@;
            lemma_index_bounds(v0.game.width, v0.game.height, px, py);
            assert forall|x: int, y: int|
                in_grid(v1.game.width, v1.game.height, x, y) && (x != px || y != py) implies #[trigger] v1.board.status_at(x, y) == v0.board.status_at(x, y) by {
                lemma_index_injective(v0.game.width, v0.game.height, x, y, px, py);
                lemma_index_bounds(v0.game.width, v0.game.height, x, y);
            }
            assert forall|x: int, y: int|
                in_grid(v1.game.width, v1.game.height, x, y) && #[trigger] v1.board.status_at(x, y) is Safe implies v1.board.status_at(x, y) == ICellState::Safe(v1.game.mines_around(x, y) as usize) by {
                if x == px && y == py {
                } else {
                    assert(v1.board.status_at(x, y) == v0.board.status_at(x, y));
                }
            }
            assert(v1.wf());
        }
    }

    /// Reveals `pos` and everything that follows from it.
    fn unveil(&mut self, pos: (usize, usize))
        requires
            old(self)@.wf(),
            old(self)@.outcome == Outcome::InProgress,
            in_grid(old(self)@.game.width, old(self)@.game.height, pos.0 as int, pos.1 as int),
        ensures
            old(self)@.board.status_at(pos.0 as int, pos.1 as int) is Veiled && !old(self)@.mines_spread
                && (forall|i: int| 0 <= i < old(self)@.area() ==> !#[trigger] old(self)@.game.mines[i])
                ==> final(self)@.game.clear_around(pos.0 as int, pos.1 as int),
            old(self)@.advances(final(self)@),
            old(self)@.board.status_at(pos.0 as int, pos.1 as int) is Veiled ==> final(self)@.board.status_at(pos.0 as int, pos.1 as int) is Safe
                || (final(self)@.board.status_at(pos.0 as int, pos.1 as int) is Mine
                && final(self)@.outcome == Outcome::Lost),
            final(self)@.outcome != Outcome::Lost ==> final(self)@.zeros_cleared(old(self)@.board),
            !old(self)@.auto_unveil ==> final(self)@.revealed_from(old(self)@.board, pos.0 as int, pos.1 as int),
            old(self)@.auto_unveil && final(self)@.outcome != Outcome::Lost ==> final(self)@.assisted(old(self)@.board),
            old(self)@.board.status_at(pos.0 as int, pos.1 as int) is Veiled && final(self)@.game.mine_at(pos.0 as int, pos.1 as int)
                ==> final(self)@.outcome == Outcome::Lost && final(self)@.board.cells == old(self)@.board.cells.update(
                cell_index(old(self)@.game.width, pos.0 as int, pos.1 as int),
                ICellState::Mine,
            ) && final(self)@.board.unveiled == old(self)@.board.unveiled && final(self)@.board.flags
                == old(self)@.board.flags && final(self)@.events == old(self)@.events + mine_events(
                final(self)@.game,
                final(self)@.area(),
            ),
            !old(self)@.auto_unveil && old(self)@.board.status_at(pos.0 as int, pos.1 as int) is Veiled
                ==> (final(self)@.outcome == Outcome::Lost <==> final(self)@.game.mine_at(pos.0 as int, pos.1 as int)),
            !old(self)@.auto_unveil ==> forall|a: int, b: int|
                in_grid(old(self)@.game.width, old(self)@.game.height, a, b) && #[trigger] final(self)@.board.status_at(a, b)
                    != old(self)@.board.status_at(a, b) ==> final(self)@.board.status_at(a, b) is Safe
                    || (final(self)@.board.status_at(a, b) is Mine && a == pos.0 && b == pos.1)
                    || (final(self)@.board.status_at(a, b) is Flagged && final(self)@.outcome == Outcome::Won),
            !old(self)@.auto_unveil ==> final(self)@.reveal_chain(old(self)@.events.len() as int, pos.0 as int, pos.1 as int),
            old(self)@.flags_correct() && old(self)@.board.status_at(pos.0 as int, pos.1 as int) is Veiled
                && !final(self)@.game.mine_at(pos.0 as int, pos.1 as int) ==> final(self)@.outcome != Outcome::Lost,            old(self)@.board.status_at(pos.0 as int, pos.1 as int) is Veiled && !final(self)@.game.mine_at(pos.0 as int, pos.1 as int)
                ==> final(self)@.events.len() > old(self)@.events.len() && final(self)@.events[old(self)@.events.len() as int]
                == (UIUpdate { pos, state: visible(final(self)@.board.status_at(pos.0 as int, pos.1 as int)) }),
    {
        let ghost v0 = self@;
        let mut stack: Vec<Task> = Vec::new();
        self.unveil_step(pos, &mut stack);
        let ghost v1 = self@;
        proof {
            if !v0.auto_unveil {
                lemma_chain_start(v0, v1, pos.0 as int, pos.1 as int);
            }
            if v0.auto_unveil && v0.flags_correct() && v1.outcome == Outcome::InProgress
                && v0.board.status_at(pos.0 as int, pos.1 as int) is Veiled {
                let px = pos.0 as int;
                let py = pos.1 as int;
                lemma_grid_shape(v0.game.width, v0.game.height);
                lemma_index_bounds(v0.game.width, v0.game.height, px, py);
                let ip = cell_index(v0.game.width, px, py);
                assert forall|i: int| 0 <= i < v1.area() && #[trigger] v1.board.cells[i] is Flagged implies v1.game.mines[i] by {
                    if i != ip {
                        assert(v1.board.cells[i] == v0.board.cells[i]);
                        assert(v0.game.mines[i]);
                    }
                }
                assert(v1.board.status_at(px, py) is Safe);
                assert(v1.mines_spread);
                crate::grid::lemma_around_le(9, px, py, v1.game.mine_pred());
                assert(v1.board.status_at(px, py) == ICellState::Safe(v1.game.mines_around(px, py) as usize));
                assert forall|t: int| 0 <= t < stack@.len() && #[trigger] stack@[t] is Reveal implies !v1.game.mine_at(
                    task_pos(stack@[t]).0 as int,
                    task_pos(stack@[t]).1 as int,
                ) || !(v1.board.status_at(task_pos(stack@[t]).0 as int, task_pos(stack@[t]).1 as int) is Veiled) by {
                    let a = task_pos(stack@[t]).0 as int;
                    let b = task_pos(stack@[t]).1 as int;
                    if a != px || b != py {
                        crate::game::lemma_no_mines_around(v1.game, px, py, a, b);
                    }
                }
            }
            if v0.auto_unveil && v1.outcome != Outcome::Lost {
                let sb = seq![Task::Reveal(pos)];
                assert(sb.drop_last() =~= Seq::<Task>::empty());
                lemma_assist_step(v0, v1, v0.board, sb, stack@);
            }
        }
        proof {
            lemma_grid_shape(v0.game.width, v0.game.height);
            assert forall|x: int, y: int, a: int, b: int|
                in_grid(v1.game.width, v1.game.height, x, y) && v0.board.status_at(x, y) is Veiled
                    && #[trigger] v1.board.status_at(x, y) == ICellState::Safe(0) && in_grid(
                    v1.game.width,
                    v1.game.height,
                    a,
                    b,
                ) && touching(a, b, x, y) implies !(#[trigger] v1.board.status_at(a, b) is Veiled)
                || exists|t: int| 0 <= t < stack@.len() && stack@[t] == Task::Reveal((a as usize, b as usize)) by {
                assert(x == pos.0 && y == pos.1);
            }
            if !v0.auto_unveil {
                assert forall|x: int, y: int|
                    in_grid(v1.game.width, v1.game.height, x, y) && v0.board.status_at(x, y) is Veiled
                        && #[trigger] v1.board.status_at(x, y) is Safe implies (x == pos.0 && y == pos.1) by {}
                assert forall|t: int| 0 <= t < stack@.len() implies #[trigger] stack@[t] is Reveal && ((task_pos(stack@[t]).0 == pos.0
                    && task_pos(stack@[t]).1 == pos.1) || exists|a: int, b: int|
                    in_grid(v1.game.width, v1.game.height, a, b) && touching(
                        task_pos(stack@[t]).0 as int,
                        task_pos(stack@[t]).1 as int,
                        a,
                        b,
                    ) && v0.board.status_at(a, b) is Veiled && #[trigger] v1.board.status_at(a, b)
                        == ICellState::Safe(0)) by {
                    assert(v1.board.status_at(pos.0 as int, pos.1 as int) == ICellState::Safe(0));
                }
                if v1.outcome != Outcome::Lost && stack@.len() > 0 {
                    let px = pos.0 as int;
                    let py = pos.1 as int;
                    lemma_index_bounds(v0.game.width, v0.game.height, px, py);
                    assert(v1.board.status_at(px, py) == ICellState::Safe(0));
                    assert(v1.mines_spread);
                    crate::grid::lemma_around_le(9, px, py, v1.game.mine_pred());
                    assert(v1.board.status_at(px, py) == ICellState::Safe(v1.game.mines_around(px, py) as usize));
                    assert forall|t: int| 0 <= t < stack@.len() && #[trigger] stack@[t] is Reveal implies !v1.game.mine_at(
                        task_pos(stack@[t]).0 as int,
                        task_pos(stack@[t]).1 as int,
                    ) by {
                        let a = task_pos(stack@[t]).0 as int;
                        let b = task_pos(stack@[t]).1 as int;
                        if a == px && b == py {
                            assert(!v1.game.mines[cell_index(v1.game.width, px, py)]);
                        } else {
                            crate::game::lemma_no_mines_around(v1.game, px, py, a, b);
                        }
                    }
                }
            }
        }
        let ghost kind: Option<bool> = if v0.auto_unveil { None } else { Some(true) };
        self.run(stack, Ghost(v0.board), Ghost(Set::empty()), Ghost(Some((pos.0 as int, pos.1 as int))), Ghost(kind), Ghost(v0.events.len() as int));
        proof {
            let v2 = self@;
            lemma_advances_trans(v0, v1, v2);
            if !v0.auto_unveil {
                lemma_grid_shape(v0.game.width, v0.game.height);
                assert forall|a: int, b: int|
                    in_grid(v0.game.width, v0.game.height, a, b) && #[trigger] v2.board.status_at(a, b)
                        != v0.board.status_at(a, b) implies v2.board.status_at(a, b) is Safe
                        || (v2.board.status_at(a, b) is Mine && a == pos.0 && b == pos.1)
                        || (v2.board.status_at(a, b) is Flagged && v2.outcome == Outcome::Won) by {
                    lemma_index_bounds(v0.game.width, v0.game.height, a, b);
                    if v2.board.status_at(a, b) is Mine {
                        assert(v2.outcome == Outcome::Lost);
                        assert(v1.outcome == Outcome::Lost);
                        assert(v2 == v1);
                    } else if v2.board.status_at(a, b) is Flagged && v2.outcome != Outcome::Won {
                        if v2.board.status_at(a, b) == v1.board.status_at(a, b) {
                            assert(v1.outcome != Outcome::Won);
                        }
                    }
                }
            }
            if v2.outcome != Outcome::Lost {
                lemma_covered_empty(v2, v0.board);
            }
            lemma_index_bounds(v0.game.width, v0.game.height, pos.0 as int, pos.1 as int);
        }
    }

    /// Flags `pos` and runs what assisting makes follow.
    fn flag(&mut self, pos: (usize, usize))
        requires
            old(self)@.wf(),
            old(self)@.outcome == Outcome::InProgress,
            in_grid(old(self)@.game.width, old(self)@.game.height, pos.0 as int, pos.1 as int),
        ensures
            old(self)@.advances(final(self)@),
            old(self)@.board.status_at(pos.0 as int, pos.1 as int) is Veiled ==> final(self)@.board.status_at(pos.0 as int, pos.1 as int) is Flagged,
            final(self)@.outcome != Outcome::Lost ==> final(self)@.zeros_cleared(old(self)@.board),
            !old(self)@.auto_unveil ==> final(self)@.revealed_from(old(self)@.board, pos.0 as int, pos.1 as int),
            old(self)@.auto_unveil && final(self)@.outcome != Outcome::Lost ==> final(self)@.assisted(old(self)@.board),
            !old(self)@.auto_unveil && old(self)@.board.status_at(pos.0 as int, pos.1 as int) is Veiled ==> final(self)@
                == old(self)@.flagged_at(pos),
    {
        let ghost v0 = self@;
        let mut stack: Vec<Task> = Vec::new();
        self.flag_step(pos, &mut stack);
        let ghost v1 = self@;
        proof {
            if !v0.auto_unveil {
                lemma_chain_start(v0, v1, pos.0 as int, pos.1 as int);
            }
            if v0.auto_unveil && v1.outcome != Outcome::Lost {
                let sb = seq![Task::Flag(pos)];
                assert(sb.drop_last() =~= Seq::<Task>::empty());
                lemma_index_bounds(v0.game.width, v0.game.height, pos.0 as int, pos.1 as int);
                lemma_assist_step(v0, v1, v0.board, sb, stack@);
            }
            if !v0.auto_unveil {
                assert forall|x: int, y: int|
                    in_grid(v1.game.width, v1.game.height, x, y) && v0.board.status_at(x, y) is Veiled
                        && #[trigger] v1.board.status_at(x, y) is Safe implies (x == pos.0 && y == pos.1) by {}
            }
        }
        self.run(stack, Ghost(v0.board), Ghost(Set::empty()), Ghost(Some((pos.0 as int, pos.1 as int))), Ghost(None), Ghost(v0.events.len() as int));
        proof {
            if !v0.auto_unveil && v0.board.status_at(pos.0 as int, pos.1 as int) is Veiled {
                assert(stack@.len() == 0);
                assert(self@ == v1);
            }
        }
        proof {
            let v2 = self@;
            lemma_advances_trans(v0, v1, v2);
            if v2.outcome != Outcome::Lost {
                lemma_covered_empty(v2, v0.board);
            }
            lemma_index_bounds(v0.game.width, v0.game.height, pos.0 as int, pos.1 as int);
        }
    }

    /// Chords the numbered cell `pos`: reveals its neighbours when its flags match its
    /// number, flags them when its possible mines do.
    fn unveil_surrounding_if_safe(&mut self, pos: (usize, usize))
        requires
            old(self)@.wf(),
            in_grid(old(self)@.game.width, old(self)@.game.height, pos.0 as int, pos.1 as int),
        ensures
            old(self)@.advances(final(self)@),
            final(self)@.outcome != Outcome::Lost ==> final(self)@.zeros_cleared(old(self)@.board),
            final(self)@.outcome != Outcome::Lost && (old(self)@.board.classify(pos.0 as int, pos.1 as int)
                == CellEnvironment::AllSafe || old(self)@.board.classify(pos.0 as int, pos.1 as int)
                == CellEnvironment::AllMines) ==> forall|a: int, b: int|
                in_grid(old(self)@.game.width, old(self)@.game.height, a, b) && touching(a, b, pos.0 as int, pos.1 as int)
                    ==> !(#[trigger] final(self)@.board.status_at(a, b) is Veiled),
            old(self)@.auto_unveil && final(self)@.outcome != Outcome::Lost ==> final(self)@.assisted(old(self)@.board),
            !old(self)@.auto_unveil && old(self)@.outcome == Outcome::InProgress && old(self)@.board.classify(
                pos.0 as int,
                pos.1 as int,
            ) == CellEnvironment::AllMines ==> final(self)@.outcome == old(self)@.outcome && forall|a: int, b: int|
                in_grid(old(self)@.game.width, old(self)@.game.height, a, b) ==> if touching(a, b, pos.0 as int, pos.1 as int)
                    && old(self)@.board.status_at(a, b) is Veiled {
                    #[trigger] final(self)@.board.status_at(a, b) is Flagged
                } else {
                    final(self)@.board.status_at(a, b) == old(self)@.board.status_at(a, b)
                },
            !old(self)@.auto_unveil && old(self)@.board.classify(pos.0 as int, pos.1 as int) == CellEnvironment::AllSafe
                ==> forall|a: int, b: int|
                in_grid(old(self)@.game.width, old(self)@.game.height, a, b) && #[trigger] final(self)@.board.status_at(a, b)
                    != old(self)@.board.status_at(a, b) ==> final(self)@.board.status_at(a, b) is Safe
                    || final(self)@.board.status_at(a, b) is Mine || final(self)@.outcome == Outcome::Won,
            !old(self)@.auto_unveil && old(self)@.outcome == Outcome::InProgress && old(self)@.board.classify(
                pos.0 as int,
                pos.1 as int,
            ) == CellEnvironment::AllSafe && (exists|a: int, b: int|
                in_grid(old(self)@.game.width, old(self)@.game.height, a, b) && touching(a, b, pos.0 as int, pos.1 as int)
                    && old(self)@.board.status_at(a, b) is Veiled && #[trigger] old(self)@.game.mine_at(a, b))
                ==> final(self)@.outcome != Outcome::InProgress,
    {
        let ghost v0 = self@;
        let mut stack: Vec<Task> = Vec::new();
        self.chord(pos, &mut stack);
        let ghost kind: Option<bool> = if v0.auto_unveil {
            None
        } else if v0.board.classify(pos.0 as int, pos.1 as int) == CellEnvironment::AllSafe {
            Some(true)
        } else if v0.board.classify(pos.0 as int, pos.1 as int) == CellEnvironment::AllMines {
            Some(false)
        } else {
            None
        };
        let ghost s1 = stack@;
        let ghost forced = v0.board.classify(pos.0 as int, pos.1 as int) == CellEnvironment::AllSafe
            || v0.board.classify(pos.0 as int, pos.1 as int) == CellEnvironment::AllMines;
        let ghost watch = if forced {
            Set::new(|p: (int, int)| touching(p.0, p.1, pos.0 as int, pos.1 as int))
        } else {
            Set::empty()
        };
        self.run(stack, Ghost(v0.board), Ghost(watch), Ghost(None), Ghost(kind), Ghost(0));
        proof {
            let vf = self@;
            lemma_grid_shape(v0.game.width, v0.game.height);
            if kind == Some(false) && v0.outcome == Outcome::InProgress {
                assert forall|a: int, b: int|
                    in_grid(v0.game.width, v0.game.height, a, b) implies if touching(a, b, pos.0 as int, pos.1 as int)
                        && v0.board.status_at(a, b) is Veiled {
                        #[trigger] vf.board.status_at(a, b) is Flagged
                    } else {
                        vf.board.status_at(a, b) == v0.board.status_at(a, b)
                    } by {
                    lemma_index_bounds(v0.game.width, v0.game.height, a, b);
                    let i = cell_index(v0.game.width, a, b);
                    if vf.board.status_at(a, b) != v0.board.status_at(a, b) {
                        assert(v0.board.cells[i] is Veiled);
                        let t = choose|t: int| 0 <= t < s1.len() && s1[t] == Task::Flag((a as usize, b as usize));
                        assert(touching(task_pos(s1[t]).0 as int, task_pos(s1[t]).1 as int, pos.0 as int, pos.1 as int));
                    } else if touching(a, b, pos.0 as int, pos.1 as int) && v0.board.status_at(a, b) is Veiled {
                        assert(watch.contains((a, b)));
                    }
                }
            }
            if kind == Some(true) && v0.outcome == Outcome::InProgress && vf.outcome == Outcome::InProgress {
                if exists|a: int, b: int|
                    in_grid(v0.game.width, v0.game.height, a, b) && touching(a, b, pos.0 as int, pos.1 as int)
                        && v0.board.status_at(a, b) is Veiled && #[trigger] v0.game.mine_at(a, b) {
                    let (a, b) = choose|a: int, b: int|
                        in_grid(v0.game.width, v0.game.height, a, b) && touching(a, b, pos.0 as int, pos.1 as int)
                            && v0.board.status_at(a, b) is Veiled && #[trigger] v0.game.mine_at(a, b);
                    assert(watch.contains((a, b)));
                    lemma_index_bounds(v0.game.width, v0.game.height, a, b);
                    lemma_index_bounds(v0.game.width, v0.game.height, pos.0 as int, pos.1 as int);
                    let i = cell_index(v0.game.width, a, b);
                    assert(v0.board.status_at(pos.0 as int, pos.1 as int) is Safe);
                    assert(v0.mines_spread);
                    assert(vf.game == v0.game);
                    assert(!(vf.board.cells[i] is Mine));
                    assert(!(vf.board.cells[i] is Safe));
                    assert(false);
                }
            }
            if self@.outcome != Outcome::Lost {
                lemma_covered_empty(self@, v0.board);
                if forced {
                    assert forall|a: int, b: int|
                        in_grid(v0.game.width, v0.game.height, a, b) && touching(a, b, pos.0 as int, pos.1 as int)
                            implies !(#[trigger] self@.board.status_at(a, b) is Veiled) by {
                        assert(watch.contains((a, b)));
                    }
                }
            }
        }
    }

    /// Whether touch mode takes `pos` for a mine: see [`GameState::is_definitely_mined`].
    fn definitely_mined(&self, pos: (usize, usize)) -> (r: bool)
        requires
            self@.wf(),
            in_grid(self@.game.width, self@.game.height, pos.0 as int, pos.1 as int),
        ensures
            exists|fin: BoardView, ok: bool|
                #[trigger] self@.board.with_cell(pos.0 as int, pos.1 as int, ICellState::DefinitelySafe).propagation(
                    pos.0 as int,
                    pos.1 as int,
                    fin,
                    ok,
                ) && r == !ok,
    {
        self.game_state.is_definitely_mined(pos)
    }

    /// The player's primary click on `pos`. A veiled cell is revealed, or in touch mode
    /// flagged instead when supposing it safe leads to a contradiction; a numbered cell
    /// is chorded. Nothing happens once the session is over.
    pub fn pressed(&mut self, pos: (usize, usize))
        requires
            old(self)@.wf(),
            in_grid(old(self)@.game.width, old(self)@.game.height, pos.0 as int, pos.1 as int),
        ensures
            old(self)@.advances(final(self)@),
            old(self)@.auto_unveil && final(self)@.outcome != Outcome::Lost ==> final(self)@.assisted(old(self)@.board),
            final(self)@.outcome != Outcome::Lost ==> final(self)@.zeros_cleared(old(self)@.board),
            old(self)@.outcome == Outcome::InProgress && old(self)@.board.status_at(pos.0 as int, pos.1 as int) is Veiled
                && !old(self)@.touch_mode ==> final(self)@.board.status_at(pos.0 as int, pos.1 as int) is Safe
                || (final(self)@.board.status_at(pos.0 as int, pos.1 as int) is Mine
                && final(self)@.outcome == Outcome::Lost),
            old(self)@.outcome == Outcome::InProgress && old(self)@.board.status_at(pos.0 as int, pos.1 as int) is Veiled
                && !old(self)@.touch_mode && !old(self)@.auto_unveil ==> final(self)@.revealed_from(
                old(self)@.board,
                pos.0 as int,
                pos.1 as int,
            ),
            old(self)@.outcome == Outcome::InProgress && old(self)@.board.status_at(pos.0 as int, pos.1 as int) is Veiled
                && !(final(self)@.board.status_at(pos.0 as int, pos.1 as int) is Flagged) && !old(self)@.mines_spread
                && (forall|i: int| 0 <= i < old(self)@.area() ==> !#[trigger] old(self)@.game.mines[i])
                ==> final(self)@.game.clear_around(pos.0 as int, pos.1 as int)
                && !final(self)@.game.mine_at(pos.0 as int, pos.1 as int),
            old(self)@.outcome == Outcome::InProgress && old(self)@.board.status_at(pos.0 as int, pos.1 as int) is Veiled
                && !(final(self)@.board.status_at(pos.0 as int, pos.1 as int) is Flagged) && !old(self)@.auto_unveil
                ==> (final(self)@.outcome == Outcome::Lost <==> final(self)@.game.mine_at(pos.0 as int, pos.1 as int)),
            old(self)@.outcome == Outcome::InProgress && old(self)@.board.status_at(pos.0 as int, pos.1 as int) is Veiled
                && !(final(self)@.board.status_at(pos.0 as int, pos.1 as int) is Flagged) && !old(self)@.auto_unveil
                ==> forall|a: int, b: int|
                in_grid(old(self)@.game.width, old(self)@.game.height, a, b) && #[trigger] final(self)@.board.status_at(a, b)
                    != old(self)@.board.status_at(a, b) ==> final(self)@.board.status_at(a, b) is Safe
                    || (final(self)@.board.status_at(a, b) is Mine && a == pos.0 && b == pos.1)
                    || (final(self)@.board.status_at(a, b) is Flagged && final(self)@.outcome == Outcome::Won),
            old(self)@.outcome == Outcome::InProgress && old(self)@.board.status_at(pos.0 as int, pos.1 as int) is Veiled
                && !(final(self)@.board.status_at(pos.0 as int, pos.1 as int) is Flagged) && !old(self)@.auto_unveil
                ==> final(self)@.reveal_chain(old(self)@.events.len() as int, pos.0 as int, pos.1 as int),
            old(self)@.outcome == Outcome::InProgress && old(self)@.board.status_at(pos.0 as int, pos.1 as int) is Veiled
                && !(final(self)@.board.status_at(pos.0 as int, pos.1 as int) is Flagged) && old(self)@.flags_correct()
                && !final(self)@.game.mine_at(pos.0 as int, pos.1 as int) ==> final(self)@.outcome != Outcome::Lost,
            old(self)@.outcome == Outcome::InProgress && old(self)@.board.status_at(pos.0 as int, pos.1 as int) is Veiled
                && !(final(self)@.board.status_at(pos.0 as int, pos.1 as int) is Flagged)
                && !final(self)@.game.mine_at(pos.0 as int, pos.1 as int)
                ==> final(self)@.events.len() > old(self)@.events.len() && final(self)@.events[old(self)@.events.len() as int]
                == (UIUpdate { pos, state: visible(final(self)@.board.status_at(pos.0 as int, pos.1 as int)) }),
            old(self)@.outcome == Outcome::InProgress && old(self)@.board.status_at(pos.0 as int, pos.1 as int) is Veiled
                && !(final(self)@.board.status_at(pos.0 as int, pos.1 as int) is Flagged) && final(self)@.game.mine_at(pos.0 as int, pos.1 as int)
                ==> final(self)@.outcome == Outcome::Lost && final(self)@.board.cells == old(self)@.board.cells.update(
                cell_index(old(self)@.game.width, pos.0 as int, pos.1 as int),
                ICellState::Mine,
            ) && final(self)@.board.unveiled == old(self)@.board.unveiled && final(self)@.board.flags
                == old(self)@.board.flags && final(self)@.events == old(self)@.events + mine_events(
                final(self)@.game,
                final(self)@.area(),
            ),
            old(self)@.outcome == Outcome::InProgress && old(self)@.board.status_at(pos.0 as int, pos.1 as int) is Veiled
                && final(self)@.board.status_at(pos.0 as int, pos.1 as int) is Flagged && !old(self)@.auto_unveil
                ==> final(self)@ == old(self)@.flagged_at(pos),
            old(self)@.outcome == Outcome::InProgress && old(self)@.board.status_at(pos.0 as int, pos.1 as int) is Veiled
                && !old(self)@.mines_spread && old(self)@.board.flags <= old(self)@.game.total
                ==> !(final(self)@.board.status_at(pos.0 as int, pos.1 as int) is Flagged),
            old(self)@.outcome == Outcome::InProgress && old(self)@.board.status_at(pos.0 as int, pos.1 as int) is Safe
                && !old(self)@.auto_unveil && old(self)@.board.classify(pos.0 as int, pos.1 as int)
                == CellEnvironment::AllMines ==> final(self)@.outcome == Outcome::InProgress && forall|a: int, b: int|
                in_grid(old(self)@.game.width, old(self)@.game.height, a, b) ==> if touching(a, b, pos.0 as int, pos.1 as int)
                    && old(self)@.board.status_at(a, b) is Veiled {
                    #[trigger] final(self)@.board.status_at(a, b) is Flagged
                } else {
                    final(self)@.board.status_at(a, b) == old(self)@.board.status_at(a, b)
                },
            old(self)@.outcome == Outcome::InProgress && old(self)@.board.status_at(pos.0 as int, pos.1 as int) is Safe
                && !old(self)@.auto_unveil && old(self)@.board.classify(pos.0 as int, pos.1 as int)
                == CellEnvironment::AllSafe ==> forall|a: int, b: int|
                in_grid(old(self)@.game.width, old(self)@.game.height, a, b) && #[trigger] final(self)@.board.status_at(a, b)
                    != old(self)@.board.status_at(a, b) ==> final(self)@.board.status_at(a, b) is Safe
                    || final(self)@.board.status_at(a, b) is Mine || final(self)@.outcome == Outcome::Won,
            old(self)@.outcome == Outcome::InProgress && old(self)@.board.status_at(pos.0 as int, pos.1 as int) is Safe
                && !old(self)@.auto_unveil && old(self)@.board.classify(pos.0 as int, pos.1 as int)
                == CellEnvironment::AllSafe && (exists|a: int, b: int|
                in_grid(old(self)@.game.width, old(self)@.game.height, a, b) && touching(a, b, pos.0 as int, pos.1 as int)
                    && old(self)@.board.status_at(a, b) is Veiled && #[trigger] old(self)@.game.mine_at(a, b))
                ==> final(self)@.outcome != Outcome::InProgress,
            old(self)@.outcome == Outcome::InProgress && old(self)@.board.status_at(pos.0 as int, pos.1 as int) is Safe
                && final(self)@.outcome != Outcome::Lost && (old(self)@.board.classify(pos.0 as int, pos.1 as int)
                == CellEnvironment::AllSafe || old(self)@.board.classify(pos.0 as int, pos.1 as int)
                == CellEnvironment::AllMines) ==> forall|a: int, b: int|
                in_grid(old(self)@.game.width, old(self)@.game.height, a, b) && touching(a, b, pos.0 as int, pos.1 as int)
                    ==> !(#[trigger] final(self)@.board.status_at(a, b) is Veiled),
            old(self)@.outcome == Outcome::InProgress && old(self)@.board.status_at(pos.0 as int, pos.1 as int) is Veiled
                && old(self)@.touch_mode ==> exists|fin: BoardView, ok: bool|
                #[trigger] old(self)@.board.with_cell(pos.0 as int, pos.1 as int, ICellState::DefinitelySafe).propagation(
                    pos.0 as int,
                    pos.1 as int,
                    fin,
                    ok,
                ) && (!ok ==> final(self)@.board.status_at(pos.0 as int, pos.1 as int) is Flagged)
                    && (ok ==> final(self)@.board.status_at(pos.0 as int, pos.1 as int) is Safe
                    || (final(self)@.board.status_at(pos.0 as int, pos.1 as int) is Mine
                    && final(self)@.outcome == Outcome::Lost)),
    {
        if self.outcome != Outcome::InProgress {
            proof {
                lemma_covered_empty(self@, self@.board);
            }
            return;
        }
        proof {
            lemma_index_position(self@.game.width, pos.0 as int, pos.1 as int);
            lemma_index_bounds(self@.game.width, self@.game.height, pos.0 as int, pos.1 as int);
        }
        match self.game_state.get(pos) {
            ICellState::Veiled => {
                if self.touch_mode {
                    let mined = self.definitely_mined(pos);
                    proof {
                        let v = self@;
                        if !v.mines_spread && v.board.flags <= v.game.total {
                            let (fin, ok) = choose|fin: BoardView, ok: bool|
                                #[trigger] v.board.with_cell(pos.0 as int, pos.1 as int, ICellState::DefinitelySafe).propagation(
                                    pos.0 as int,
                                    pos.1 as int,
                                    fin,
                                    ok,
                                ) && mined == !ok;
                            assert forall|x: int, y: int|
                                in_grid(v.board.width, v.board.height, x, y) && touching(x, y, pos.0 as int, pos.1 as int)
                                    implies !(#[trigger] v.board.status_at(x, y) is Safe) by {
                                lemma_index_bounds(v.game.width, v.game.height, x, y);
                            }
                            lemma_unveiled_fits(v);
                            lemma_count_mono(v.area(), v.board.unveiled_cells(), |j: int| false);
                            crate::grid::lemma_count_zero(v.area());
                            crate::board::lemma_unconstrained_not_mined(v.board, pos.0 as int, pos.1 as int, fin, ok);
                        }
                    }
                    if mined {
                        self.flag(pos);
                    } else {
                        self.unveil(pos);
                    }
                } else {
                    self.unveil(pos);
                }
            },
            ICellState::Safe(_) => {
                self.unveil_surrounding_if_safe(pos);
            },
            _ => {
                proof {
                    lemma_covered_empty(self@, self@.board);
                }
            },
        }
    }

    /// The player's secondary click on `pos`: flags a veiled cell, veils a flagged one.
    /// Nothing happens once the session is over.
    pub fn toggle_flag(&mut self, pos: (usize, usize))
        requires
            old(self)@.wf(),
            in_grid(old(self)@.game.width, old(self)@.game.height, pos.0 as int, pos.1 as int),
        ensures
            final(self)@.wf(),
            old(self)@.outcome != Outcome::InProgress ==> final(self)@ == old(self)@,
            old(self)@.outcome == Outcome::InProgress && old(self)@.board.status_at(pos.0 as int, pos.1 as int) is Flagged ==> {
                &&& final(self)@.game == old(self)@.game
                &&& final(self)@.board == old(self)@.board.with_cell(
                    pos.0 as int,
                    pos.1 as int,
                    ICellState::Veiled,
                )
                &&& final(self)@.events == old(self)@.events.push(
                    UIUpdate { pos, state: CellState::Veiled },
                )
                &&& final(self)@.outcome == old(self)@.outcome
            },
            old(self)@.outcome == Outcome::InProgress && old(self)@.board.status_at(pos.0 as int, pos.1 as int) is Veiled
                && !old(self)@.auto_unveil ==> final(self)@ == old(self)@.flagged_at(pos),
            !(old(self)@.board.status_at(pos.0 as int, pos.1 as int) is Flagged) && !(old(self)@.board.status_at(
                pos.0 as int,
                pos.1 as int,
            ) is Veiled) ==> final(self)@ == old(self)@,
            !(old(self)@.board.status_at(pos.0 as int, pos.1 as int) is Flagged) ==> {
                &&& old(self)@.advances(final(self)@)
                &&& old(self)@.auto_unveil && final(self)@.outcome != Outcome::Lost ==> final(self)@.assisted(old(self)@.board)
                &&& final(self)@.outcome != Outcome::Lost ==> final(self)@.zeros_cleared(old(self)@.board)
                &&& old(self)@.outcome == Outcome::InProgress && old(self)@.board.status_at(pos.0 as int, pos.1 as int) is Veiled
                    ==> final(self)@.board.status_at(pos.0 as int, pos.1 as int) is Flagged
            },
    {
        if self.outcome != Outcome::InProgress {
            return;
        }
        match self.game_state.get(pos) {
            ICellState::Veiled => self.flag(pos),
            ICellState::Flagged => self.unflag(pos),
            _ => {
                proof {
                    lemma_covered_empty(self@, self@.board);
                }
            },
        }
    }

    /// Starts over on the same field: the mines go, every cell is veiled again, the
    /// outcome and the pending updates are cleared.
    pub fn new_game(&mut self)
        requires
            old(self)@.wf(),
        ensures
            final(self)@.wf(),
            final(self)@.game.width == old(self)@.game.width,
            final(self)@.game.height == old(self)@.game.height,
            final(self)@.game.total == old(self)@.game.total,
            final(self)@.game.unspread == old(self)@.game.total,
            forall|i: int| 0 <= i < final(self)@.area() ==> !#[trigger] final(self)@.game.mines[i],
            forall|i: int| 0 <= i < final(self)@.area() ==> #[trigger] final(self)@.board.cells[i] == ICellState::Veiled,
            final(self)@.board.flags == 0,
            final(self)@.board.unveiled == 0,
            !final(self)@.mines_spread,
            final(self)@.outcome == Outcome::InProgress,
            final(self)@.events.len() == 0,
            final(self)@.auto_unveil == old(self)@.auto_unveil,
            final(self)@.touch_mode == old(self)@.touch_mode,
    {
        self.game.new_game();
        self.game_state.clear();
        self.mines_spread = false;
        self.outcome = Outcome::InProgress;
        self.ui_updates = Vec::new();
        proof {
            let v = self@;
            assert forall|x: int, y: int|
                in_grid(v.game.width, v.game.height, x, y) implies !(#[trigger] v.board.status_at(x, y) is Safe) by {
                lemma_index_bounds(v.game.width, v.game.height, x, y);
            }
        }
    }

    /// Pops and performs tasks until none is left or the session is over.
    fn run(
        &mut self,
        stack: Vec<Task>,
        Ghost(start): Ghost<BoardView>,
        Ghost(watch): Ghost<Set<(int, int)>>,
        Ghost(from): Ghost<Option<(int, int)>>,
        Ghost(kind): Ghost<Option<bool>>,
        Ghost(elen): Ghost<int>,
    )
        requires
            old(self)@.wf(),
            kind is Some ==> !old(self)@.auto_unveil && forall|t: int|
                0 <= t < stack@.len() ==> if kind->Some_0 {
                    #[trigger] stack@[t] is Reveal
                } else {
                    stack@[t] is Flag
                },
            tasks_in_grid(old(self)@.game.width, old(self)@.game.height, stack@, 0),
            zeros_covered(old(self)@, start, stack@),
            watched_done(old(self)@, watch, stack@),
            from is Some && !old(self)@.auto_unveil ==> {
                &&& start.width == old(self)@.game.width
                &&& start.height == old(self)@.game.height
                &&& reveals_from(old(self)@, start, from->Some_0.0, from->Some_0.1, stack@)
                &&& old(self)@.revealed_from(start, from->Some_0.0, from->Some_0.1)
                &&& 0 <= elen <= old(self)@.events.len()
                &&& old(self)@.reveal_chain(elen, from->Some_0.0, from->Some_0.1)
                &&& zeros_shown(old(self)@, start, elen)
                &&& forall|i: int|
                    0 <= i < old(self)@.area() && #[trigger] old(self)@.board.cells[i] != start.cells[i]
                        ==> start.cells[i] is Veiled
            },
        ensures
            from is Some && !old(self)@.auto_unveil ==> final(self)@.revealed_from(start, from->Some_0.0, from->Some_0.1),
            from is Some && !old(self)@.auto_unveil ==> final(self)@.reveal_chain(elen, from->Some_0.0, from->Some_0.1),
            from is Some && !old(self)@.auto_unveil && old(self)@.outcome != Outcome::Lost && reveals_safe(old(self)@, stack@)
                ==> final(self)@.outcome != Outcome::Lost,
            stack@.len() == 0 ==> final(self)@ == old(self)@,
            old(self)@.auto_unveil && old(self)@.outcome == Outcome::InProgress && old(self)@.flags_correct()
                && tasks_sound(old(self)@, stack@) ==> final(self)@.outcome != Outcome::Lost,
            kind == Some(false) ==> final(self)@.outcome == old(self)@.outcome && forall|a: int, b: int|
                in_grid(old(self)@.game.width, old(self)@.game.height, a, b) && #[trigger] final(self)@.board.status_at(a, b)
                    != old(self)@.board.status_at(a, b) ==> final(self)@.board.status_at(a, b) is Flagged
                    && exists|t: int| 0 <= t < stack@.len() && stack@[t] == Task::Flag((a as usize, b as usize)),
            kind == Some(true) ==> forall|a: int, b: int|
                in_grid(old(self)@.game.width, old(self)@.game.height, a, b) && #[trigger] final(self)@.board.status_at(a, b)
                    != old(self)@.board.status_at(a, b) ==> final(self)@.board.status_at(a, b) is Safe
                    || final(self)@.board.status_at(a, b) is Mine || final(self)@.outcome == Outcome::Won,
            old(self)@.auto_unveil && final(self)@.outcome != Outcome::Lost && assist_covered(old(self)@, start, stack@)
                && start.width == old(self)@.game.width && start.height == old(self)@.game.height
                ==> final(self)@.assisted(start),
            old(self)@.advances(final(self)@),
            final(self)@.outcome != Outcome::Lost ==> zeros_covered(final(self)@, start, Seq::empty()),
            final(self)@.outcome != Outcome::Lost ==> forall|a: int, b: int|
                #[trigger] watch.contains((a, b)) && in_grid(old(self)@.game.width, old(self)@.game.height, a, b)
                    ==> !(final(self)@.board.status_at(a, b) is Veiled),
    {
        let ghost v0 = self@;
        let ghost stack_in = stack@;
        let mut stack = stack;
        proof {
            lemma_weight_nonneg(stack@);
        }
        while stack.len() > 0 && self.outcome == Outcome::InProgress
            invariant
                v0 == old(self)@,
                v0.wf(),
                v0.advances(self@),
                stack_in.len() == 0 ==> self@ == v0 && stack@.len() == 0,
                v0.auto_unveil && v0.outcome == Outcome::InProgress && v0.flags_correct() && tasks_sound(v0, stack_in)
                    ==> self@.outcome != Outcome::Lost && (self@.outcome == Outcome::InProgress ==> self@.flags_correct()
                    && tasks_sound(self@, stack@)),
                kind is Some ==> !v0.auto_unveil && forall|t: int|
                    0 <= t < stack@.len() ==> if kind->Some_0 {
                        #[trigger] stack@[t] is Reveal
                    } else {
                        stack@[t] is Flag
                    },
                kind == Some(false) ==> self@.outcome == v0.outcome && stack@.len() <= stack_in.len()
                    && (forall|t: int| 0 <= t < stack@.len() ==> #[trigger] stack@[t] == stack_in[t])
                    && forall|a: int, b: int|
                    in_grid(v0.game.width, v0.game.height, a, b) && #[trigger] self@.board.status_at(a, b)
                        != v0.board.status_at(a, b) ==> self@.board.status_at(a, b) is Flagged
                        && exists|t: int| 0 <= t < stack_in.len() && stack_in[t] == Task::Flag((a as usize, b as usize)),
                kind == Some(true) ==> forall|a: int, b: int|
                    in_grid(v0.game.width, v0.game.height, a, b) && #[trigger] self@.board.status_at(a, b)
                        != v0.board.status_at(a, b) ==> self@.board.status_at(a, b) is Safe
                        || self@.board.status_at(a, b) is Mine || self@.outcome == Outcome::Won,
                from is Some && !v0.auto_unveil && v0.outcome != Outcome::Lost && reveals_safe(v0, stack_in)
                    ==> self@.outcome != Outcome::Lost && reveals_safe(self@, stack@),
                tasks_in_grid(v0.game.width, v0.game.height, stack@, 0),
                zeros_covered(self@, start, stack@),
                watched_done(self@, watch, stack@),
                v0.auto_unveil && self@.outcome != Outcome::Lost && assist_covered(v0, start, stack_in)
                    && start.width == v0.game.width && start.height == v0.game.height ==> assist_covered(self@, start, stack@),
                from is Some && !v0.auto_unveil ==> {
                    &&& start.width == v0.game.width
                    &&& start.height == v0.game.height
                    &&& reveals_from(self@, start, from->Some_0.0, from->Some_0.1, stack@)
                    &&& self@.revealed_from(start, from->Some_0.0, from->Some_0.1)
                    &&& 0 <= elen <= self@.events.len()
                    &&& self@.reveal_chain(elen, from->Some_0.0, from->Some_0.1)
                    &&& zeros_shown(self@, start, elen)
                    &&& forall|i: int|
                        0 <= i < v0.area() && #[trigger] self@.board.cells[i] != start.cells[i]
                            ==> start.cells[i] is Veiled
                },
            decreases self@.board.veiled_count() * 101 + stack_weight(stack@),
        {
            let ghost sb = stack@;
            let ghost vb = self@;
            let task = stack.pop().unwrap();
            let ghost sp = stack@;
            proof {
                assert(sp == sb.drop_last());
                assert(task == sb.last());
                assert(in_grid(
                    v0.game.width,
                    v0.game.height,
                    task_pos(sb[sb.len() - 1]).0 as int,
                    task_pos(sb[sb.len() - 1]).1 as int,
                ));
                lemma_weight_nonneg(sp);
            }
            match task {
                Task::Reveal(p) => self.unveil_step(p, &mut stack),
                Task::Flag(p) => self.flag_step(p, &mut stack),
                Task::Scan(p) => self.unveil_around_sis(p, &mut stack),
                Task::Chord(p) => self.chord(p, &mut stack),
            }
            proof {
                let va = self@;
                let sa = stack@;
                lemma_weight_nonneg(sa);
                assert(vb.advances(va));
                lemma_advances_trans(v0, vb, va);
                if kind is Some {
                    lemma_kind_step(v0, vb, va, sb, sa, stack_in, kind->Some_0);
                }
                if v0.auto_unveil && va.outcome != Outcome::Lost && assist_covered(v0, start, stack_in)
                    && start.width == v0.game.width && start.height == v0.game.height {
                    lemma_index_bounds(v0.game.width, v0.game.height, task_pos(task).0 as int, task_pos(task).1 as int);
                    lemma_assist_step(vb, va, start, sb, sa);
                }
                if from is Some && !v0.auto_unveil && v0.outcome != Outcome::Lost && reveals_safe(v0, stack_in) {
                    assert(sb[sb.len() - 1] is Reveal);
                    lemma_safe_reveal_step(vb, va, sb, sa);
                }
                if from is Some && !v0.auto_unveil {
                    let (fx, fy) = from->Some_0;
                    assert(sb[sb.len() - 1] is Reveal);
                    lemma_chain_step(vb, va, start, sb, elen, fx, fy);
                    lemma_reveal_tracking(vb, va, start, fx, fy, sb, sa, task_pos(task));
                }
                assert forall|t: int| 0 <= t < sa.len() implies in_grid(
                    v0.game.width,
                    v0.game.height,
                    #[trigger] task_pos(sa[t]).0 as int,
                    task_pos(sa[t]).1 as int,
                ) by {
                    if t < sp.len() {
                        assert(sa[t] == sp[t]);
                        assert(sp[t] == sb[t]);
                    }
                }
                if v0.auto_unveil && v0.outcome == Outcome::InProgress && v0.flags_correct() && tasks_sound(v0, stack_in) {
                    lemma_sound_step(vb, va, sb, sa);
                }
                assert forall|a: int, b: int|
                    #[trigger] watch.contains((a, b)) && in_grid(va.game.width, va.game.height, a, b) implies !(
                    va.board.status_at(a, b) is Veiled) || exists|t: int|
                    0 <= t < sa.len() && (sa[t] == Task::Reveal((a as usize, b as usize)) || sa[t]
                        == Task::Flag((a as usize, b as usize))) by {
                    lemma_index_bounds(v0.game.width, v0.game.height, a, b);
                    lemma_grid_shape(v0.game.width, v0.game.height);
                    let ia = cell_index(v0.game.width, a, b);
                    if vb.board.status_at(a, b) is Veiled {
                        let t = choose|t: int|
                            0 <= t < sb.len() && (sb[t] == Task::Reveal((a as usize, b as usize))
                                || sb[t] == Task::Flag((a as usize, b as usize)));
                        if t < sp.len() {
                            assert(sp[t] == sb[t]);
                            assert(sa[t] == sp[t]);
                        } else {
                            assert((a as usize) as int == a && (b as usize) as int == b);
                        }
                    } else {
                        assert(va.board.cells[ia] == vb.board.cells[ia]);
                    }
                }
                assert forall|x: int, y: int, a: int, b: int|
                    in_grid(va.game.width, va.game.height, x, y) && start.status_at(x, y) is Veiled
                        && #[trigger] va.board.status_at(x, y) == ICellState::Safe(0) && in_grid(
                        va.game.width,
                        va.game.height,
                        a,
                        b,
                    ) && touching(a, b, x, y) implies !(#[trigger] va.board.status_at(a, b) is Veiled)
                    || exists|t: int| 0 <= t < sa.len() && sa[t] == Task::Reveal((a as usize, b as usize)) by {
                    lemma_index_bounds(v0.game.width, v0.game.height, x, y);
                    lemma_index_bounds(v0.game.width, v0.game.height, a, b);
                    lemma_grid_shape(v0.game.width, v0.game.height);
                    let ix = cell_index(v0.game.width, x, y);
                    let ia = cell_index(v0.game.width, a, b);
                    if va.board.cells[ix] == vb.board.cells[ix] {
                        if vb.board.status_at(a, b) is Veiled {
                            let t = choose|t: int|
                                0 <= t < sb.len() && sb[t] == Task::Reveal((a as usize, b as usize));
                            if t < sp.len() {
                                assert(sp[t] == sb[t]);
                                assert(sa[t] == sp[t]);
                                assert(sa[t] == Task::Reveal((a as usize, b as usize)));
                            } else {
                                assert(task == Task::Reveal((a as usize, b as usize)));
                                assert((a as usize) as int == a && (b as usize) as int == b);
                                assert(vb.board.status_at(a, b) is Veiled);
                                assert(!(va.board.status_at(a, b) is Veiled));
                            }
                        } else {
                            assert(va.board.cells[ia] == vb.board.cells[ia]);
                        }
                    } else {
                        assert(vb.board.cells[ix] is Veiled);
                        assert(va.board.status_at(x, y) != vb.board.status_at(x, y));
                        match task {
                            Task::Reveal(p) => {
                                assert(p.0 as int == x && p.1 as int == y);
                                assert(vb.board.status_at(x, y) is Veiled);
                                assert(!(va.board.status_at(a, b) is Veiled) || exists|t: int| sp.len() <= t < sa.len() && sa[t] == Task::Reveal((a as usize, b as usize)));
                            },
                            Task::Flag(p) => {
                                assert(false);
                            },
                            _ => {
                                assert(false);
                            },
                        }
                    }
                }
            }
        }
        proof {
            let vf = self@;
            if v0.auto_unveil && vf.outcome != Outcome::Lost && assist_covered(v0, start, stack_in)
                && start.width == v0.game.width && start.height == v0.game.height {
                assert forall|x: int, y: int|
                    in_grid(vf.game.width, vf.game.height, x, y) && #[trigger] vf.near_change(start, x, y)
                        implies vf.assist_done(x, y) by {
                    if !vf.assist_done(x, y) {
                        assert forall|a: int, b: int|
                            in_grid(vf.board.width, vf.board.height, a, b) && touching(a, b, x, y) implies !(#[trigger] vf.board.status_at(a, b) is Veiled) by {
                            lemma_index_bounds(v0.game.width, v0.game.height, a, b);
                            if vf.outcome != Outcome::Won {
                                assert(stack@.len() == 0);
                                assert(assist_pending(vf, stack@, x, y));
                            }
                        }
                    }
                }
            }
            if stack@.len() == 0 {
                assert(stack@ =~= Seq::<Task>::empty());
            } else if vf.outcome == Outcome::Won {
                assert forall|a: int, b: int|
                    #[trigger] watch.contains((a, b)) && in_grid(v0.game.width, v0.game.height, a, b)
                        implies !(vf.board.status_at(a, b) is Veiled) by {
                    lemma_index_bounds(v0.game.width, v0.game.height, a, b);
                }
                assert forall|x: int, y: int, a: int, b: int|
                    in_grid(vf.game.width, vf.game.height, x, y) && start.status_at(x, y) is Veiled
                        && #[trigger] vf.board.status_at(x, y) == ICellState::Safe(0) && in_grid(
                        vf.game.width,
                        vf.game.height,
                        a,
                        b,
                    ) && touching(a, b, x, y) implies !(#[trigger] vf.board.status_at(a, b) is Veiled) by {
                    lemma_index_bounds(v0.game.width, v0.game.height, a, b);
                }
            }
        }
    }

    /// Appends one `Mine` update for every mined cell, in row-major order.
    fn show_mines(&mut self)
        requires
            old(self)@.game.wf(),
        ensures
            final(self)@ == old(self)@.with_events(
                old(self)@.events + mine_events(old(self)@.game, old(self)@.area()),
            ),
    {
        let ghost v0 = self@;
        let dim = self.game.get_dim();
        let area: usize = dim.0 * dim.1;
        let mut i: usize = 0;
        let mut x: usize = 0;
        let mut y: usize = 0;
        while i < area
            invariant
                v0 == old(self)@,
                v0.game.wf(),
                dim.0 == v0.game.width,
                dim.1 == v0.game.height,
                area == v0.area(),
                i <= area,
                x < dim.0,
                i == cell_index(dim.0 as int, x as int, y as int),
                self@ == v0.with_events(v0.events + mine_events(v0.game, i as int)),
            decreases area - i,
        {
            proof {
                lemma_index_position(dim.0 as int, x as int, y as int);
                lemma_next_cell(dim.0 as int, x as int, y as int);
                assert(y < dim.1) by (nonlinear_arith)
                    requires
                        i == y * dim.0 + x,
                        i < dim.0 * dim.1,
                        x < dim.0,
                ;
            }
            let label = self.game.get_cell_label((x, y));
            let ghost e = self.ui_updates@;
            if let CellLabel::Mine = label {
                self.ui_updates.push(UIUpdate { pos: (x, y), state: CellState::Mine });
                proof {
                    assert(self.ui_updates@ =~= v0.events + mine_events(v0.game, i + 1));
                }
            } else {
                proof {
                    assert(self.ui_updates@ =~= v0.events + mine_events(v0.game, i + 1));
                }
            }
            i = i + 1;
            if x + 1 == dim.0 {
                x = 0;
                y = y + 1;
            } else {
                x = x + 1;
            }
        }
    }
}

} // verus!
