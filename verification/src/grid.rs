//! Arithmetic of row-major indices into a grid.

use vstd::prelude::*;

verus! {

/// The row-major index of the cell `(x, y)` in a grid `w` wide.
pub open spec fn cell_index(x: int, y: int, w: int) -> int {
    y * w + x
}

/// A cell inside a `w` by `h` grid has an index below `w * h`.
pub proof fn lemma_cell_index_bound(x: int, y: int, w: int, h: int)
    requires
        0 <= x < w,
        0 <= y < h,
    ensures
        0 <= cell_index(x, y, w) < w * h,
        y * w >= 0,
        y * w + w <= w * h,
{
    assert(y * w >= 0) by (nonlinear_arith)
        requires
            y >= 0,
            w > 0,
    ;
    assert(y * w + w <= w * h) by (nonlinear_arith)
        requires
            0 <= y < h,
            w > 0,
    ;
}

/// An index determines its cell: its column is the remainder and its row
/// the quotient by the width.
pub proof fn lemma_cell_of_index(x: int, y: int, w: int)
    requires
        0 <= x < w,
        0 <= y,
    ensures
        cell_index(x, y, w) % w == x,
        cell_index(x, y, w) / w == y,
{
    vstd::arithmetic::div_mod::lemma_fundamental_div_mod_converse(cell_index(x, y, w), w, y, x);
}

/// An index below `w * h` lies in a row below `h`, and is the index of
/// the cell made of its remainder and quotient.
pub proof fn lemma_index_to_cell(i: int, w: int, h: int)
    requires
        0 <= i < w * h,
        0 < w,
    ensures
        0 <= i % w < w,
        0 <= i / w < h,
        cell_index(i % w, i / w, w) == i,
{
    vstd::arithmetic::div_mod::lemma_fundamental_div_mod(i, w);
    vstd::arithmetic::div_mod::lemma_mod_pos_bound(i, w);
    let q = i / w;
    assert(w * q == q * w) by (nonlinear_arith);
    assert(q >= 0) by (nonlinear_arith)
        requires
            q * w + i % w == i,
            0 <= i % w < w,
            i >= 0,
            w > 0,
    ;
    assert(q < h) by (nonlinear_arith)
        requires
            q * w + i % w == i,
            0 <= i % w < w,
            i < w * h,
            w > 0,
    ;
}

/// Two cells of one grid with the same index are the same cell.
pub proof fn lemma_cell_index_injective(x1: int, y1: int, x2: int, y2: int, w: int)
    requires
        0 <= x1 < w,
        0 <= x2 < w,
        0 <= y1,
        0 <= y2,
        cell_index(x1, y1, w) == cell_index(x2, y2, w),
    ensures
        x1 == x2,
        y1 == y2,
{
    lemma_cell_of_index(x1, y1, w);
    lemma_cell_of_index(x2, y2, w);
}

/// The cells among the first `n` cells of a grid `w` wide, in row-major
/// order, of which `f` holds.
pub open spec fn raster_filter(w: int, n: int, f: spec_fn(int, int) -> bool) -> Seq<(int, int)>
    decreases n,
{
    if n <= 0 || w <= 0 {
        Seq::empty()
    } else {
        let x = (n - 1) % w;
        let y = (n - 1) / w;
        if f(x, y) {
            raster_filter(w, n - 1, f).push((x, y))
        } else {
            raster_filter(w, n - 1, f)
        }
    }
}

/// The filter after one more cell.
pub proof fn lemma_raster_filter_step(w: int, x: int, y: int, f: spec_fn(int, int) -> bool)
    requires
        0 <= x < w,
        0 <= y,
    ensures
        raster_filter(w, cell_index(x, y, w) + 1, f) == (if f(x, y) {
            raster_filter(w, cell_index(x, y, w), f).push((x, y))
        } else {
            raster_filter(w, cell_index(x, y, w), f)
        }),
{
    lemma_cell_of_index(x, y, w);
    assert(y * w >= 0) by (nonlinear_arith)
        requires
            y >= 0,
            w > 0,
    ;
}

/// Every cell that the filter hands out lies in the grid, before the
/// `n`-th cell, and `f` holds of it; and every such cell is handed out.
pub proof fn lemma_raster_filter_members(w: int, n: int, f: spec_fn(int, int) -> bool)
    requires
        0 < w,
        0 <= n,
    ensures
        forall|k: int|
            0 <= k < raster_filter(w, n, f).len() ==> ({
                let c = #[trigger] raster_filter(w, n, f)[k];
                0 <= c.0 < w && 0 <= c.1 && cell_index(c.0, c.1, w) < n && f(c.0, c.1)
            }),
        forall|x: int, y: int|
            0 <= x < w && 0 <= y && cell_index(x, y, w) < n && #[trigger] f(x, y)
                ==> raster_filter(w, n, f).contains((x, y)),
    decreases n,
{
    if n > 0 {
        lemma_raster_filter_members(w, n - 1, f);
        let x0 = (n - 1) % w;
        let y0 = (n - 1) / w;
        vstd::arithmetic::div_mod::lemma_fundamental_div_mod(n - 1, w);
        vstd::arithmetic::div_mod::lemma_mod_pos_bound(n - 1, w);
        assert(w * y0 == y0 * w) by (nonlinear_arith);
        assert(y0 >= 0) by (nonlinear_arith)
            requires
                y0 * w + x0 == n - 1,
                0 <= x0 < w,
                n - 1 >= 0,
        ;
        let prev = raster_filter(w, n - 1, f);
        let cur = raster_filter(w, n, f);
        assert forall|k: int| 0 <= k < cur.len() implies ({
            let c = #[trigger] cur[k];
            0 <= c.0 < w && 0 <= c.1 && cell_index(c.0, c.1, w) < n && f(c.0, c.1)
        }) by {
            if k < prev.len() {
                assert(cur[k] == prev[k]);
            }
        }
        assert forall|x: int, y: int|
            0 <= x < w && 0 <= y && cell_index(x, y, w) < n && #[trigger] f(x, y) implies cur.contains(
            (x, y),
        ) by {
            if cell_index(x, y, w) == n - 1 {
                lemma_cell_index_injective(x, y, x0, y0, w);
                assert(cur[cur.len() - 1] == (x, y));
            } else {
                assert(prev.contains((x, y)));
                let k = choose|k: int| 0 <= k < prev.len() && prev[k] == (x, y);
                assert(cur[k] == (x, y));
            }
        }
    }
}

/// The filter hands out no cell twice.
pub proof fn lemma_raster_filter_distinct(w: int, n: int, f: spec_fn(int, int) -> bool)
    requires
        0 < w,
        0 <= n,
    ensures
        raster_filter(w, n, f).no_duplicates(),
    decreases n,
{
    if n > 0 {
        lemma_raster_filter_distinct(w, n - 1, f);
        lemma_raster_filter_members(w, n - 1, f);
        lemma_raster_filter_members(w, n, f);
        let prev = raster_filter(w, n - 1, f);
        let cur = raster_filter(w, n, f);
        assert forall|i: int, j: int| 0 <= i < cur.len() && 0 <= j < cur.len() && i != j implies cur[i]
            != cur[j] by {
            if i < prev.len() {
                assert(cur[i] == prev[i]);
            }
            if j < prev.len() {
                assert(cur[j] == prev[j]);
            }
            let x0 = (n - 1) % w;
            let y0 = (n - 1) / w;
            vstd::arithmetic::div_mod::lemma_fundamental_div_mod(n - 1, w);
            assert(w * y0 == y0 * w) by (nonlinear_arith);
            assert(cell_index(x0, y0, w) == n - 1);
        }
    }
}

/// Two predicates that agree on the cells of the grid give the same filter.
pub proof fn lemma_raster_filter_congruent(
    w: int,
    n: int,
    f: spec_fn(int, int) -> bool,
    g: spec_fn(int, int) -> bool,
)
    requires
        0 < w,
        0 <= n,
        forall|x: int, y: int|
            0 <= x < w && 0 <= y && cell_index(x, y, w) < n ==> #[trigger] f(x, y) == g(x, y),
    ensures
        raster_filter(w, n, f) == raster_filter(w, n, g),
    decreases n,
{
    if n > 0 {
        lemma_raster_filter_congruent(w, n - 1, f, g);
        let x0 = (n - 1) % w;
        let y0 = (n - 1) / w;
        vstd::arithmetic::div_mod::lemma_fundamental_div_mod(n - 1, w);
        vstd::arithmetic::div_mod::lemma_mod_pos_bound(n - 1, w);
        assert(w * y0 == y0 * w) by (nonlinear_arith);
        assert(y0 >= 0) by (nonlinear_arith)
            requires
                y0 * w + x0 == n - 1,
                0 <= x0 < w,
                n - 1 >= 0,
        ;
        assert(f(x0, y0) == g(x0, y0));
    }
}

} // verus!
