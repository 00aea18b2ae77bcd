//! Grid geometry (flat indices, 3x3 windows) and counting over index ranges.

use vstd::prelude::*;

verus! {

/// Number of indices `i` in `[0, n)` for which `p(i)` holds.
pub open spec fn count_where(n: int, p: spec_fn(int) -> bool) -> nat
    decreases n,
{
    if n <= 0 {
        0
    } else {
        count_where(n - 1, p) + if p(n - 1) { 1nat } else { 0nat }
    }
}

/// Flat index of cell `(x, y)` on a grid of width `w` (row-major).
pub open spec fn cell_index(w: int, x: int, y: int) -> int {
    y * w + x
}

/// Whether `(x, y)` lies on a `w` by `h` grid.
pub open spec fn in_grid(w: int, h: int, x: int, y: int) -> bool {
    0 <= x < w && 0 <= y < h
}

/// Horizontal offset of the `k`-th cell of a 3x3 window (`k` in `0..9`, row-major).
pub open spec fn window_dx(k: int) -> int {
    k % 3 - 1
}

/// Vertical offset of the `k`-th cell of a 3x3 window.
pub open spec fn window_dy(k: int) -> int {
    k / 3 - 1
}

/// Whether two cells are equal or touch, diagonals included.
pub open spec fn touching(x1: int, y1: int, x2: int, y2: int) -> bool {
    -1 <= x1 - x2 <= 1 && -1 <= y1 - y2 <= 1
}

/// Number of the first `k` window cells around `(x, y)`, the centre excluded,
/// whose coordinates satisfy `p`.
pub open spec fn count_around(k: int, x: int, y: int, p: spec_fn(int, int) -> bool) -> nat
    decreases k,
{
    if k <= 0 {
        0
    } else {
        count_around(k - 1, x, y, p) + if k - 1 != 4 && p(x + window_dx(k - 1), y + window_dy(k - 1)) {
            1nat
        } else {
            0nat
        }
    }
}

/// The eight neighbours of a cell, as all window cells but the centre.
pub open spec fn neighbours_count(x: int, y: int, p: spec_fn(int, int) -> bool) -> nat {
    count_around(9, x, y, p)
}

/// One more index adds one exactly when the predicate holds there.
pub proof fn lemma_count_step(n: int, p: spec_fn(int) -> bool)
    requires
        n >= 0,
    ensures
        count_where(n + 1, p) == count_where(n, p) + if p(n) { 1nat } else { 0nat },
{
}

pub proof fn lemma_count_le(n: int, p: spec_fn(int) -> bool)
    requires
        n >= 0,
    ensures
        count_where(n, p) <= n,
    decreases n,
{
    if n > 0 {
        lemma_count_le(n - 1, p);
    }
}

pub proof fn lemma_count_mono(n: int, p: spec_fn(int) -> bool, q: spec_fn(int) -> bool)
    requires
        forall|i: int| 0 <= i < n && #[trigger] p(i) ==> q(i),
    ensures
        count_where(n, p) <= count_where(n, q),
    decreases n,
{
    if n > 0 {
        lemma_count_mono(n - 1, p, q);
    }
}

pub proof fn lemma_count_ext(n: int, p: spec_fn(int) -> bool, q: spec_fn(int) -> bool)
    requires
        forall|i: int| 0 <= i < n ==> #[trigger] p(i) == q(i),
    ensures
        count_where(n, p) == count_where(n, q),
    decreases n,
{
    if n > 0 {
        lemma_count_ext(n - 1, p, q);
    }
}

/// Changing the predicate at one index moves the count by at most one.
pub proof fn lemma_count_change(n: int, p: spec_fn(int) -> bool, q: spec_fn(int) -> bool, j: int)
    requires
        0 <= j < n,
        forall|i: int| 0 <= i < n && i != j ==> #[trigger] p(i) == q(i),
    ensures
        count_where(n, q) + (if p(j) { 1int } else { 0int }) == count_where(n, p) + (if q(j) {
            1int
        } else {
            0int
        }),
    decreases n,
{
    if n - 1 == j {
        lemma_count_ext(n - 1, p, q);
    } else {
        lemma_count_change(n - 1, p, q, j);
    }
}

/// A predicate and its negation split the range.
pub proof fn lemma_count_complement(n: int, p: spec_fn(int) -> bool, q: spec_fn(int) -> bool)
    requires
        n >= 0,
        forall|i: int| 0 <= i < n ==> #[trigger] q(i) == !p(i),
    ensures
        count_where(n, p) + count_where(n, q) == n,
    decreases n,
{
    if n > 0 {
        lemma_count_complement(n - 1, p, q);
    }
}

pub proof fn lemma_count_union(
    n: int,
    p: spec_fn(int) -> bool,
    q: spec_fn(int) -> bool,
    r: spec_fn(int) -> bool,
)
    requires
        forall|i: int| 0 <= i < n && #[trigger] r(i) ==> p(i) || q(i),
    ensures
        count_where(n, r) <= count_where(n, p) + count_where(n, q),
    decreases n,
{
    if n > 0 {
        lemma_count_union(n - 1, p, q, r);
    }
}

/// A predicate that holds at most at index `a` counts at most once.
pub proof fn lemma_count_single(n: int, p: spec_fn(int) -> bool, a: int)
    requires
        forall|i: int| 0 <= i < n && #[trigger] p(i) ==> i == a,
    ensures
        count_where(n, p) <= 1,
    decreases n,
{
    if n > 0 {
        if p(n - 1) {
            lemma_count_mono(n - 1, p, |i: int| false);
            lemma_count_zero(n - 1);
        } else {
            lemma_count_single(n - 1, p, a);
        }
    }
}

pub proof fn lemma_count_zero(n: int)
    ensures
        count_where(n, |i: int| false) == 0,
    decreases n,
{
    if n > 0 {
        lemma_count_zero(n - 1);
    }
}

/// A predicate that holds somewhere in range counts at least once.
pub proof fn lemma_count_pos(n: int, p: spec_fn(int) -> bool, j: int)
    requires
        0 <= j < n,
        p(j),
    ensures
        count_where(n, p) >= 1,
    decreases n,
{
    if j < n - 1 {
        lemma_count_pos(n - 1, p, j);
    }
}

/// When `p` implies `q` and both count the same, they agree everywhere.
pub proof fn lemma_count_same(n: int, p: spec_fn(int) -> bool, q: spec_fn(int) -> bool)
    requires
        forall|i: int| 0 <= i < n && #[trigger] p(i) ==> q(i),
        count_where(n, p) == count_where(n, q),
    ensures
        forall|i: int| 0 <= i < n && #[trigger] q(i) ==> p(i),
    decreases n,
{
    if n > 0 {
        lemma_count_mono(n - 1, p, q);
        lemma_count_same(n - 1, p, q);
    }
}

/// A predicate that holds only at values listed in `s` counts at most `s.len()` times.
pub proof fn lemma_count_listed(n: int, p: spec_fn(int) -> bool, s: Seq<int>)
    requires
        forall|i: int| 0 <= i < n && #[trigger] p(i) ==> s.contains(i),
    ensures
        count_where(n, p) <= s.len(),
    decreases s.len(),
{
    if s.len() == 0 {
        lemma_count_mono(n, p, |i: int| false);
        lemma_count_zero(n);
    } else {
        let last = s.last();
        let rest = s.drop_last();
        let at_last = |i: int| p(i) && i == last;
        let elsewhere = |i: int| p(i) && i != last;
        assert forall|i: int| 0 <= i < n && #[trigger] elsewhere(i) implies rest.contains(i) by {
            let j = choose|j: int| 0 <= j < s.len() && s[j] == i;
            assert(rest[j] == i);
        }
        lemma_count_listed(n, elsewhere, rest);
        lemma_count_single(n, at_last, last);
        lemma_count_union(n, at_last, elsewhere, p);
    }
}

/// At most nine cells of a grid touch a given cell.
pub proof fn lemma_touching_count(w: int, n: int, kx: int, ky: int)
    requires
        w > 0,
    ensures
        count_where(n, |i: int| touching(i % w, i / w, kx, ky)) <= 9,
{
    let c = ky * w + kx;
    let s = seq![c - w - 1, c - w, c - w + 1, c - 1, c, c + 1, c + w - 1, c + w, c + w + 1];
    let p = |i: int| touching(i % w, i / w, kx, ky);
    assert forall|i: int| 0 <= i < n && #[trigger] p(i) implies s.contains(i) by {
        let q = i / w;
        let r = i % w;
        vstd::arithmetic::div_mod::lemma_fundamental_div_mod(i, w);
        let d = q - ky;
        assert(w * q == w * ky + w * d) by (nonlinear_arith)
            requires
                d == q - ky,
        ;
        assert(ky * w == w * ky) by (nonlinear_arith);
        if d == -1 {
            assert(w * d == -w) by (nonlinear_arith)
                requires
                    d == -1,
            ;
            if r == kx - 1 {
                assert(s[0] == i);
            } else if r == kx {
                assert(s[1] == i);
            } else {
                assert(s[2] == i);
            }
        } else if d == 0 {
            assert(w * d == 0) by (nonlinear_arith)
                requires
                    d == 0,
            ;
            if r == kx - 1 {
                assert(s[3] == i);
            } else if r == kx {
                assert(s[4] == i);
            } else {
                assert(s[5] == i);
            }
        } else {
            assert(w * d == w) by (nonlinear_arith)
                requires
                    d == 1,
            ;
            if r == kx - 1 {
                assert(s[6] == i);
            } else if r == kx {
                assert(s[7] == i);
            } else {
                assert(s[8] == i);
            }
        }
    }
    lemma_count_listed(n, p, s);
}

/// Row-major position of a flat index.
pub proof fn lemma_index_position(w: int, x: int, y: int)
    requires
        w > 0,
        0 <= x < w,
    ensures
        cell_index(w, x, y) % w == x,
        cell_index(w, x, y) / w == y,
{
    vstd::arithmetic::div_mod::lemma_fundamental_div_mod_converse(cell_index(w, x, y), w, y, x);
}

/// Cells of a `w` by `h` grid have distinct flat indices below `w * h`.
pub proof fn lemma_index_bounds(w: int, h: int, x: int, y: int)
    requires
        in_grid(w, h, x, y),
    ensures
        0 <= cell_index(w, x, y) < w * h,
        cell_index(w, x, y) + 1 <= w * h,
{
    assert(0 <= y * w + x < w * h) by (nonlinear_arith)
        requires
            0 <= x < w,
            0 <= y < h,
    ;
}

/// Bounds that follow from a grid of at least three by three cells fitting in memory.
pub proof fn lemma_grid_shape(w: int, h: int)
    requires
        w >= 3,
        h >= 3,
        w * h <= usize::MAX,
    ensures
        w + 2 <= usize::MAX,
        h + 2 <= usize::MAX,
        w * h >= 9,
{
    assert(w * 3 <= w * h && h * 3 <= w * h && w * h >= 9) by (nonlinear_arith)
        requires
            w >= 3,
            h >= 3,
    ;
}

/// Two grid cells with the same flat index are the same cell.
pub proof fn lemma_index_injective(w: int, h: int, x1: int, y1: int, x2: int, y2: int)
    requires
        in_grid(w, h, x1, y1),
        in_grid(w, h, x2, y2),
    ensures
        cell_index(w, x1, y1) == cell_index(w, x2, y2) <==> x1 == x2 && y1 == y2,
{
    lemma_index_position(w, x1, y1);
    lemma_index_position(w, x2, y2);
}

/// Position of a cell in the window centred on `(cx, cy)`, when it touches that centre.
pub open spec fn window_slot(cx: int, cy: int, x: int, y: int) -> int {
    (y - cy + 1) * 3 + (x - cx + 1)
}

pub proof fn lemma_window_slot(cx: int, cy: int, k: int)
    requires
        0 <= k < 9,
    ensures
        window_slot(cx, cy, cx + window_dx(k), cy + window_dy(k)) == k,
        touching(cx + window_dx(k), cy + window_dy(k), cx, cy),
        k == 4 <==> (window_dx(k) == 0 && window_dy(k) == 0),
{
}

pub proof fn lemma_slot_inverse(cx: int, cy: int, x: int, y: int)
    requires
        touching(x, y, cx, cy),
    ensures
        0 <= window_slot(cx, cy, x, y) < 9,
        x == cx + window_dx(window_slot(cx, cy, x, y)),
        y == cy + window_dy(window_slot(cx, cy, x, y)),
{
}

pub proof fn lemma_around_le(k: int, x: int, y: int, p: spec_fn(int, int) -> bool)
    ensures
        count_around(k, x, y, p) <= if k < 0 { 0 } else { k },
    decreases k,
{
    if k > 0 {
        lemma_around_le(k - 1, x, y, p);
    }
}

/// A zero count means no counted neighbour satisfies the predicate.
pub proof fn lemma_around_zero(k: int, x: int, y: int, p: spec_fn(int, int) -> bool)
    requires
        count_around(k, x, y, p) == 0,
    ensures
        forall|j: int| 0 <= j < k && j != 4 ==> !#[trigger] p(x + window_dx(j), y + window_dy(j)),
    decreases k,
{
    if k > 0 {
        lemma_around_zero(k - 1, x, y, p);
    }
}

/// When `p` implies `q` on the counted neighbours and both count the same, they agree there.
pub proof fn lemma_around_same(k: int, x: int, y: int, p: spec_fn(int, int) -> bool, q: spec_fn(int, int) -> bool)
    requires
        0 <= k <= 9,
        forall|j: int| 0 <= j < k && j != 4 && #[trigger] p(x + window_dx(j), y + window_dy(j)) ==> q(x + window_dx(j), y + window_dy(j)),
        count_around(k, x, y, p) == count_around(k, x, y, q),
    ensures
        forall|j: int| 0 <= j < k && j != 4 && #[trigger] q(x + window_dx(j), y + window_dy(j)) ==> p(x + window_dx(j), y + window_dy(j)),
    decreases k,
{
    if k > 0 {
        lemma_around_mono(k - 1, x, y, p, q);
        lemma_around_same(k - 1, x, y, p, q);
    }
}

pub proof fn lemma_around_ext(k: int, x: int, y: int, p: spec_fn(int, int) -> bool, q: spec_fn(int, int) -> bool)
    requires
        forall|j: int| 0 <= j < k && j != 4 ==> #[trigger] p(x + window_dx(j), y + window_dy(j)) == q(x + window_dx(j), y + window_dy(j)),
    ensures
        count_around(k, x, y, p) == count_around(k, x, y, q),
    decreases k,
{
    if k > 0 {
        lemma_around_ext(k - 1, x, y, p, q);
    }
}

pub proof fn lemma_around_mono(k: int, x: int, y: int, p: spec_fn(int, int) -> bool, q: spec_fn(int, int) -> bool)
    requires
        forall|j: int| 0 <= j < k && j != 4 && #[trigger] p(x + window_dx(j), y + window_dy(j)) ==> q(x + window_dx(j), y + window_dy(j)),
    ensures
        count_around(k, x, y, p) <= count_around(k, x, y, q),
    decreases k,
{
    if k > 0 {
        lemma_around_mono(k - 1, x, y, p, q);
    }
}

/// Changing a predicate at one neighbour `(mx, my)` moves a neighbour count by at most one.
pub proof fn lemma_around_change(
    k: int,
    x: int,
    y: int,
    p: spec_fn(int, int) -> bool,
    q: spec_fn(int, int) -> bool,
    mx: int,
    my: int,
)
    requires
        0 <= k <= 9,
        touching(mx, my, x, y),
        mx != x || my != y,
        forall|j: int| 0 <= j < k && j != 4 && (x + window_dx(j) != mx || y + window_dy(j) != my) ==> #[trigger] p(x + window_dx(j), y + window_dy(j)) == q(x + window_dx(j), y + window_dy(j)),
    ensures
        window_slot(x, y, mx, my) < k ==> count_around(k, x, y, q) + (if p(mx, my) { 1int } else { 0int }) == count_around(k, x, y, p) + (if q(mx, my) { 1int } else { 0int }),
        window_slot(x, y, mx, my) >= k ==> count_around(k, x, y, q) == count_around(k, x, y, p),
    decreases k,
{
    if k > 0 {
        lemma_around_change(k - 1, x, y, p, q, mx, my);
    }
}

} // verus!
