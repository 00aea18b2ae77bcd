//! The mine layout: deferred random placement and ground-truth labels.

use rand::Rng;
use vstd::prelude::*;
use crate::grid::{
    cell_index, count_where, in_grid, lemma_count_change, lemma_count_complement, lemma_count_mono,
    lemma_count_union, lemma_count_zero, lemma_count_step, lemma_index_bounds, lemma_index_position,
    lemma_touching_count, lemma_grid_shape, neighbours_count, touching, count_around,
};

verus! {

/// Ground truth of a cell: a mine, or the number of mined neighbours.
#[derive(Clone, Copy, Debug, PartialEq, Eq, Structural)]
pub enum CellLabel {
    Mine,
    Safe(usize),
}

/// Why a field could not be created.
#[derive(Clone, Copy, Debug, PartialEq, Eq, Structural)]
pub enum ConfigError {
    /// A side is shorter than three cells.
    TooSmall,
    /// Fewer than nine cells would stay free of mines.
    TooManyMines,
}

/// Mathematical model of a [`Game`].
pub ghost struct GameView {
    pub width: int,
    pub height: int,
    /// Row-major: cell `(x, y)` is at `y * width + x`.
    pub mines: Seq<bool>,
    pub unspread: int,
    pub total: int,
}

impl GameView {
    pub open spec fn area(self) -> int {
        self.width * self.height
    }

    pub open spec fn mine_at(self, x: int, y: int) -> bool {
        in_grid(self.width, self.height, x, y) && self.mines[cell_index(self.width, x, y)]
    }

    /// Whether the cell at a flat index holds a mine.
    pub open spec fn mined(self) -> spec_fn(int) -> bool {
        |i: int| self.mines[i]
    }

    /// Number of cells that hold a mine.
    pub open spec fn placed(self) -> nat {
        count_where(self.area(), self.mined())
    }

    pub open spec fn wf(self) -> bool {
        &&& self.width >= 3
        &&& self.height >= 3
        &&& self.area() <= usize::MAX
        &&& self.mines.len() == self.area()
        &&& 0 <= self.total <= self.area() - 9
        &&& 0 <= self.unspread
        &&& self.placed() + self.unspread == self.total
    }

    /// Number of the eight neighbours of `(x, y)` that hold a mine.
    pub open spec fn mine_pred(self) -> spec_fn(int, int) -> bool {
        |a: int, b: int| self.mine_at(a, b)
    }

    pub open spec fn mines_around(self, x: int, y: int) -> nat {
        neighbours_count(x, y, self.mine_pred())
    }

    pub open spec fn label_at(self, x: int, y: int) -> CellLabel {
        if self.mine_at(x, y) {
            CellLabel::Mine
        } else {
            CellLabel::Safe(self.mines_around(x, y) as usize)
        }
    }

    /// A cell where a mine may still go while `(kx, ky)` and its neighbours stay free.
    pub open spec fn free_for(self, kx: int, ky: int, i: int) -> bool {
        !self.mines[i] && !touching(i % self.width, i / self.width, kx, ky)
    }

    pub open spec fn free_pred(self, kx: int, ky: int) -> spec_fn(int) -> bool {
        |i: int| self.free_for(kx, ky, i)
    }

    pub open spec fn free_count(self, kx: int, ky: int) -> nat {
        count_where(self.area(), self.free_pred(kx, ky))
    }

    /// No mine touches `(kx, ky)`.
    pub open spec fn clear_around(self, kx: int, ky: int) -> bool {
        forall|i: int|
            0 <= i < self.area() && #[trigger] self.mines[i] ==> !touching(
                i % self.width,
                i / self.width,
                kx,
                ky,
            )
    }
}

/// Stepping one cell right, wrapping to the next row, moves the flat index by one.
pub proof fn lemma_next_cell(w: int, x: int, y: int)
    requires
        w > 0,
        0 <= x < w,
    ensures
        x + 1 < w ==> cell_index(w, x + 1, y) == cell_index(w, x, y) + 1,
        x + 1 == w ==> cell_index(w, 0, y + 1) == cell_index(w, x, y) + 1,
{
    assert((y + 1) * w == y * w + w) by (nonlinear_arith);
}

/// The mine layout of one session.
pub struct Game {
    dim: (usize, usize),
    mines: Vec<bool>,
    unspread_mines: usize,
    total_mines: usize,
}

impl View for Game {
    type V = GameView;

    closed spec fn view(&self) -> GameView {
        GameView {
            width: self.dim.0 as int,
            height: self.dim.1 as int,
            mines: self.mines@,
            unspread: self.unspread_mines as int,
            total: self.total_mines as int,
        }
    }
}

/// Relies on rand's `Rng::gen_range` over the thread-local generator: a value in `[0, bound)`.
#[verifier::external_body]
fn random_below(bound: usize) -> (r: usize)
    requires
        bound > 0,
    ensures
        r < bound,
{
    rand::thread_rng().gen_range(0, bound)
}

/// A cell with no mined neighbour has none among the cells touching it.
pub proof fn lemma_no_mines_around(g: GameView, x: int, y: int, a: int, b: int)
    requires
        g.mines_around(x, y) == 0,
        touching(a, b, x, y),
        a != x || b != y,
    ensures
        !g.mine_at(a, b),
{
    crate::grid::lemma_around_zero(9, x, y, g.mine_pred());
    assert(g.mine_pred()(a, b) == g.mine_at(a, b));
    crate::grid::lemma_slot_inverse(x, y, a, b);
    let j = crate::grid::window_slot(x, y, a, b);
    assert(j != 4);
}

/// Whether two coordinates differ by at most one.
fn close(a: usize, b: usize) -> (r: bool)
    ensures
        r == (-1 <= a - b <= 1),
{
    if a <= b {
        b - a <= 1
    } else {
        a - b <= 1
    }
}

impl Game {
    /// A field of `dim.0` columns and `dim.1` rows that will hold `mine_count` mines.
    pub fn new(dim: (usize, usize), mine_count: usize) -> (r: Result<Game, ConfigError>)
        requires
            dim.0 * dim.1 <= usize::MAX,
        ensures
            dim.0 < 3 || dim.1 < 3 <==> r == Err::<Game, ConfigError>(ConfigError::TooSmall),
            dim.0 >= 3 && dim.1 >= 3 && mine_count + 9 > dim.0 * dim.1 <==> r == Err::<
                Game,
                ConfigError,
            >(ConfigError::TooManyMines),
            r is Ok ==> {
                let g = r->Ok_0@;
                &&& g.wf()
                &&& g.width == dim.0
                &&& g.height == dim.1
                &&& g.total == mine_count
                &&& g.unspread == mine_count
                &&& forall|i: int| 0 <= i < g.area() ==> !#[trigger] g.mines[i]
            },
    {
        if dim.0 < 3 || dim.1 < 3 {
            return Err(ConfigError::TooSmall);
        }
        let area: usize = dim.0 * dim.1;
        assert(dim.0 * dim.1 >= 9) by (nonlinear_arith)
            requires
                dim.0 >= 3,
                dim.1 >= 3,
        ;
        if area - 9 < mine_count {
            return Err(ConfigError::TooManyMines);
        }
        let mut mines: Vec<bool> = Vec::new();
        let mut i: usize = 0;
        while i < area
            invariant
                i <= area,
                mines@.len() == i,
                forall|j: int| 0 <= j < i ==> !#[trigger] mines@[j],
            decreases area - i,
        {
            mines.push(false);
            i = i + 1;
        }
        let g = Game { dim, mines, unspread_mines: mine_count, total_mines: mine_count };
        proof {
            let v = g@;
            lemma_count_mono(v.area(), v.mined(), |j: int| false);
            lemma_count_zero(v.area());
        }
        Ok(g)
    }

    pub fn get_dim(&self) -> (r: (usize, usize))
        ensures
            r.0 == self@.width,
            r.1 == self@.height,
    {
        self.dim
    }

    pub fn get_mine_count(&self) -> (r: usize)
        ensures
            r == self@.total,
    {
        self.total_mines
    }

    /// Whether `(x, y)` holds a mine; off the grid nothing does.
    fn has_mine(&self, x: usize, y: usize) -> (r: bool)
        requires
            self@.wf(),
        ensures
            r == self@.mine_at(x as int, y as int),
    {
        if x < self.dim.0 && y < self.dim.1 {
            proof {
                lemma_index_bounds(self@.width, self@.height, x as int, y as int);
            }
            self.mines[y * self.dim.0 + x]
        } else {
            false
        }
    }

    /// The ground truth of `pos`.
    pub fn get_cell_label(&self, pos: (usize, usize)) -> (r: CellLabel)
        requires
            self@.wf(),
            in_grid(self@.width, self@.height, pos.0 as int, pos.1 as int),
        ensures
            r == self@.label_at(pos.0 as int, pos.1 as int),
    {
        if self.has_mine(pos.0, pos.1) {
            return CellLabel::Mine;
        }
        proof {
            lemma_grid_shape(self@.width, self@.height);
        }
        let ghost v = self@;
        let ghost p = v.mine_pred();
        let mut count: usize = 0;
        let mut k: usize = 0;
        while k < 9
            invariant
                self@ == v,
                p == v.mine_pred(),
                v.wf(),
                v.width + 2 <= usize::MAX,
                v.height + 2 <= usize::MAX,
                in_grid(v.width, v.height, pos.0 as int, pos.1 as int),
                k <= 9,
                count == count_around(k as int, pos.0 as int, pos.1 as int, p),
                count <= k,
            decreases 9 - k,
        {
            if k != 4 && pos.0 + k % 3 >= 1 && pos.1 + k / 3 >= 1 {
                let x: usize = pos.0 + k % 3 - 1;
                let y: usize = pos.1 + k / 3 - 1;
                if self.has_mine(x, y) {
                    count = count + 1;
                }
            }
            k = k + 1;
        }
        CellLabel::Safe(count)
    }

    /// Number of cells where a mine may go while `keep_free` and its neighbours stay free.
    fn count_free(&self, keep_free: (usize, usize)) -> (r: usize)
        requires
            self@.wf(),
        ensures
            r == self@.free_count(keep_free.0 as int, keep_free.1 as int),
    {
        let ghost v = self@;
        let ghost p = v.free_pred(keep_free.0 as int, keep_free.1 as int);
        let area: usize = self.dim.0 * self.dim.1;
        let mut count: usize = 0;
        let mut i: usize = 0;
        let mut x: usize = 0;
        let mut y: usize = 0;
        while i < area
            invariant
                self@ == v,
                p == v.free_pred(keep_free.0 as int, keep_free.1 as int),
                v.wf(),
                area == v.area(),
                i <= area,
                x < v.width,
                i == cell_index(v.width, x as int, y as int),
                count == count_where(i as int, p),
                count <= i,
            decreases area - i,
        {
            proof {
                lemma_index_position(v.width, x as int, y as int);
                lemma_next_cell(v.width, x as int, y as int);
                lemma_grid_shape(v.width, v.height);
            }
            let near = close(x, keep_free.0) && close(y, keep_free.1);
            proof {
                lemma_count_step(i as int, p);
            }
            if !self.mines[i] && !near {
                count = count + 1;
            }
            i = i + 1;
            if x + 1 == self.dim.0 {
                x = 0;
                y = y + 1;
            } else {
                x = x + 1;
            }
        }
        count
    }

    /// Puts a mine on the `choice`-th cell (row-major, counting from zero) among those
    /// where a mine may go while `keep_free` and its neighbours stay free.
    pub fn place_mine(&mut self, keep_free: (usize, usize), choice: usize) -> (j: usize)
        requires
            old(self)@.wf(),
            old(self)@.unspread > 0,
            choice < old(self)@.free_count(keep_free.0 as int, keep_free.1 as int),
        ensures
            final(self)@.wf(),
            final(self)@.width == old(self)@.width,
            final(self)@.height == old(self)@.height,
            final(self)@.total == old(self)@.total,
            final(self)@.unspread == old(self)@.unspread - 1,
            j < old(self)@.area(),
            old(self)@.free_for(keep_free.0 as int, keep_free.1 as int, j as int),
            count_where(j as int, old(self)@.free_pred(keep_free.0 as int, keep_free.1 as int))
                == choice,
            final(self)@.mines == old(self)@.mines.update(j as int, true),
    {
        let ghost v = self@;
        let ghost p = v.free_pred(keep_free.0 as int, keep_free.1 as int);
        let area: usize = self.dim.0 * self.dim.1;
        let mut seen: usize = 0;
        let mut i: usize = 0;
        let mut x: usize = 0;
        let mut y: usize = 0;
        while i < area
            invariant
                self@ == v,
                p == v.free_pred(keep_free.0 as int, keep_free.1 as int),
                v == old(self)@,
                v.wf(),
                v.unspread > 0,
                area == v.area(),
                i <= area,
                x < v.width,
                i == cell_index(v.width, x as int, y as int),
                seen == count_where(i as int, p),
                seen <= choice,
                choice < count_where(area as int, p),
            decreases area - i,
        {
            proof {
                lemma_index_position(v.width, x as int, y as int);
                lemma_next_cell(v.width, x as int, y as int);
                lemma_grid_shape(v.width, v.height);
            }
            let near = close(x, keep_free.0) && close(y, keep_free.1);
            proof {
                lemma_count_step(i as int, p);
            }
            if !self.mines[i] && !near {
                if seen == choice {
                    self.mines.set(i, true);
                    self.unspread_mines = self.unspread_mines - 1;
                    proof {
                        let nv = self@;
                        lemma_count_change(v.area(), v.mined(), nv.mined(), i as int);
                        assert(nv.mines == v.mines.update(i as int, true));
                    }
                    return i;
                }
                seen = seen + 1;
            }
            i = i + 1;
            if x + 1 == self.dim.0 {
                x = 0;
                y = y + 1;
            } else {
                x = x + 1;
            }
        }
        proof {
            assert(false);
        }
        0
    }

    /// Places every mine still to place on cells chosen at random, none of them on
    /// `keep_free` or its neighbours.
    pub fn spread_mines(&mut self, keep_free: (usize, usize))
        requires
            old(self)@.wf(),
        ensures
            final(self)@.wf(),
            final(self)@.width == old(self)@.width,
            final(self)@.height == old(self)@.height,
            final(self)@.total == old(self)@.total,
            final(self)@.unspread == 0,
            final(self)@.placed() == final(self)@.total,
            forall|i: int|
                0 <= i < old(self)@.area() && #[trigger] final(self)@.mines[i] && !old(
                    self,
                )@.mines[i] ==> !touching(
                    i % old(self)@.width,
                    i / old(self)@.width,
                    keep_free.0 as int,
                    keep_free.1 as int,
                ),
            forall|i: int| 0 <= i < old(self)@.area() && #[trigger] old(self)@.mines[i] ==> final(self)@.mines[i],
    {
        let ghost v0 = self@;
        let ghost kx = keep_free.0 as int;
        let ghost ky = keep_free.1 as int;
        // Drawing uniformly among the cells still allowed is the same as drawing any cell
        // and redrawing on a refused one, and takes one draw per mine.
        while self.unspread_mines > 0
            invariant
                kx == keep_free.0 as int,
                ky == keep_free.1 as int,
                v0 == old(self)@,
                self@.wf(),
                self@.width == v0.width,
                self@.height == v0.height,
                self@.total == v0.total,
                forall|i: int|
                    0 <= i < v0.area() && #[trigger] self@.mines[i] && !v0.mines[i] ==> !touching(
                        i % v0.width,
                        i / v0.width,
                        kx,
                        ky,
                    ),
                forall|i: int| 0 <= i < v0.area() && #[trigger] v0.mines[i] ==> self@.mines[i],
            decreases self@.unspread,
        {
            let available = self.count_free(keep_free);
            proof {
                let v = self@;
                let taken = |i: int| !v.free_for(kx, ky, i);
                let mined = v.mined();
                let near = |i: int| touching(i % v.width, i / v.width, kx, ky);
                lemma_count_complement(v.area(), v.free_pred(kx, ky), taken);
                lemma_count_union(v.area(), mined, near, taken);
                lemma_touching_count(v.width, v.area(), kx, ky);
                assert(count_where(v.area(), mined) == v.placed());
                assert(count_where(v.area(), taken) <= v.placed() + 9);
                assert(available > 0);
            }
            let choice = random_below(available);
            let ghost before = self@;
            let j = self.place_mine(keep_free, choice);
            proof {
                let after = self@;
                assert forall|i: int|
                    0 <= i < v0.area() && #[trigger] after.mines[i] && !v0.mines[i] implies !touching(
                    i % v0.width,
                    i / v0.width,
                    kx,
                    ky,
                ) by {
                    if !before.mines[i] {
                        assert(i == j);
                    }
                }
                assert forall|i: int| 0 <= i < v0.area() && #[trigger] v0.mines[i] implies after.mines[i] by {
                    assert(before.mines[i]);
                    assert(after.mines[i]);
                }
            }
        }
    }

    /// Clears every mine; they will be placed again.
    pub fn new_game(&mut self)
        requires
            old(self)@.wf(),
        ensures
            final(self)@.wf(),
            final(self)@.width == old(self)@.width,
            final(self)@.height == old(self)@.height,
            final(self)@.total == old(self)@.total,
            final(self)@.unspread == old(self)@.total,
            forall|i: int| 0 <= i < final(self)@.area() ==> !#[trigger] final(self)@.mines[i],
    {
        let ghost v0 = self@;
        let area: usize = self.dim.0 * self.dim.1;
        let mut i: usize = 0;
        while i < area
            invariant
                self@.width == v0.width,
                self@.height == v0.height,
                self@.total == v0.total,
                self@.unspread == v0.unspread,
                v0.wf(),
                area == v0.area(),
                i <= area,
                self@.mines.len() == area,
                forall|j: int| 0 <= j < i ==> !#[trigger] self@.mines[j],
            decreases area - i,
        {
            self.mines.set(i, false);
            i = i + 1;
        }
        self.unspread_mines = self.total_mines;
        proof {
            let v = self@;
            lemma_count_mono(v.area(), v.mined(), |j: int| false);
            lemma_count_zero(v.area());
        }
    }
}

} // verus!
