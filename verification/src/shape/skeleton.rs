//! The skeleton of a binary image.

use vstd::prelude::*;

use crate::grid::cell_index;
use crate::image::BinaryImage;
use crate::image::MonoImage;
use crate::shape::geometry::Shape;

verus! {

/// The skeleton of a binary image (also known as its medial axis), with
/// the width of the shape at every pixel of the skeleton for which one
/// was measured.
pub struct Skeleton {
    pub image: BinaryImage,
    pub widths: Vec<u16>,
}

/// The cell `j` steps of `(dx, dy)` back from `(ex, ey)`.
pub open spec fn back_cell(ex: int, ey: int, dx: int, dy: int, j: int) -> (int, int) {
    (ex - j * dx, ey - j * dy)
}

/// The pixel of `image` at the cell `c` is set.
pub open spec fn set_at(image: &BinaryImage, c: (int, int)) -> bool {
    image.in_bounds(c.0, c.1) && image.spec_get(c.0, c.1)
}

/// `mark` and `span` have the size of `image`, which is no more than
/// 65535 pixels wide or high.
pub open spec fn fitting(image: &BinaryImage, mark: &BinaryImage, span: &MonoImage) -> bool {
    &&& image.wf()
    &&& mark.wf()
    &&& image.width <= u16::MAX
    &&& image.height <= u16::MAX
    &&& mark.width == image.width
    &&& mark.height == image.height
    &&& span.spec_width() == image.width
    &&& span@.len() == image.width * image.height
}

/// Every pixel that is set in `after` is set in `before` or in `image`.
pub open spec fn grown_within(after: &BinaryImage, before: &BinaryImage, image: &BinaryImage) -> bool {
    forall|x: int, y: int|
        image.in_bounds(x, y) && #[trigger] after.spec_get(x, y) ==> before.spec_get(x, y)
            || image.spec_get(x, y)
}

/// The length that `span` records for the pixel `(x, y)`.
pub open spec fn span_at(span: &MonoImage, image: &BinaryImage, x: int, y: int) -> u16 {
    span@[cell_index(x, y, image.width as int)]
}

/// Is `(x, y)` one of the cells from one step up to but without `n` steps
/// of `(dx, dy)` back from `(ex, ey)`?
pub open spec fn in_run(ex: int, ey: int, dx: int, dy: int, n: int, x: int, y: int) -> bool {
    exists|j: int| 1 <= j < n && #[trigger] back_cell(ex, ey, dx, dy, j) == (x, y)
}

/// The cells up to `n` steps back are those up to `n - 1` steps back and
/// the cell `n - 1` steps back.
proof fn lemma_in_run_step(ex: int, ey: int, dx: int, dy: int, n: int, x: int, y: int)
    requires
        1 <= n,
    ensures
        in_run(ex, ey, dx, dy, n + 1, x, y) == (in_run(ex, ey, dx, dy, n, x, y) || back_cell(
            ex,
            ey,
            dx,
            dy,
            n,
        ) == (x, y)),
{
    if in_run(ex, ey, dx, dy, n + 1, x, y) {
        let j = choose|j: int| 1 <= j < n + 1 && #[trigger] back_cell(ex, ey, dx, dy, j) == (x, y);
        if j < n {
            assert(in_run(ex, ey, dx, dy, n, x, y));
        }
    }
    if in_run(ex, ey, dx, dy, n, x, y) {
        let j = choose|j: int| 1 <= j < n && #[trigger] back_cell(ex, ey, dx, dy, j) == (x, y);
        assert(1 <= j < n + 1 && back_cell(ex, ey, dx, dy, j) == (x, y));
    }
}

/// Records a run of `run` set pixels that ends just before `(ex, ey)`: its
/// length at every pixel of it, and the pixel in its middle.
fn mark_run(
    Ghost(image): Ghost<&BinaryImage>,
    mark: &mut BinaryImage,
    span: &mut MonoImage,
    ex: i64,
    ey: i64,
    dx: i64,
    dy: i64,
    run: usize,
)
    requires
        fitting(image, old(mark), old(span)),
        -1 <= dx <= 1,
        -1 <= dy <= 1,
        1 <= run <= u16::MAX,
        -1 <= ex <= image.width,
        -1 <= ey <= image.height,
        forall|j: int|
            1 <= j <= run ==> set_at(image, #[trigger] back_cell(ex as int, ey as int, dx as int, dy as int, j)),
    ensures
        fitting(image, final(mark), final(span)),
        grown_within(final(mark), old(mark), image),
        forall|x: int, y: int|
            image.in_bounds(x, y) ==> #[trigger] span_at(final(span), image, x, y) == (if in_run(
                ex as int,
                ey as int,
                dx as int,
                dy as int,
                run + 1,
                x,
                y,
            ) {
                run as u16
            } else {
                span_at(old(span), image, x, y)
            }),
        forall|x: int, y: int|
            image.in_bounds(x, y) ==> #[trigger] final(mark).spec_get(x, y) == (old(mark).spec_get(
                x,
                y,
            ) || back_cell(ex as int, ey as int, dx as int, dy as int, run / 2 + 1) == (x, y)),
{
    let ghost before = *mark;
    let ghost spans = *span;
    let middle: usize = run / 2 + 1;
    let mut j: usize = 1;
    proof {
        assert forall|x: int, y: int| !in_run(ex as int, ey as int, dx as int, dy as int, 1, x, y) by {
            if in_run(ex as int, ey as int, dx as int, dy as int, 1, x, y) {
                let j = choose|j: int|
                    1 <= j < 1 && #[trigger] back_cell(ex as int, ey as int, dx as int, dy as int, j)
                        == (x, y);
            }
        }
    }
    while j <= run
        invariant
            forall|x: int, y: int|
                image.in_bounds(x, y) ==> #[trigger] span_at(span, image, x, y) == (if in_run(
                    ex as int,
                    ey as int,
                    dx as int,
                    dy as int,
                    j as int,
                    x,
                    y,
                ) {
                    run as u16
                } else {
                    span_at(&spans, image, x, y)
                }),
            forall|x: int, y: int|
                image.in_bounds(x, y) ==> #[trigger] mark.spec_get(x, y) == (before.spec_get(x, y)
                    || (middle < j && back_cell(
                    ex as int,
                    ey as int,
                    dx as int,
                    dy as int,
                    middle as int,
                ) == (x, y))),
            fitting(image, mark, span),
            -1 <= dx <= 1,
            -1 <= dy <= 1,
            1 <= j <= run + 1,
            run <= u16::MAX,
            middle == run / 2 + 1,
            -1 <= ex <= image.width,
            -1 <= ey <= image.height,
            forall|j: int|
                1 <= j <= run ==> set_at(
                    image,
                    #[trigger] back_cell(ex as int, ey as int, dx as int, dy as int, j),
                ),
            grown_within(mark, &before, image),
        decreases run + 1 - j,
    {
        let ghost c = back_cell(ex as int, ey as int, dx as int, dy as int, j as int);
        assert(set_at(image, c));
        assert(-0x1_0000 <= j * dx <= 0x1_0000 && -0x1_0000 <= j * dy <= 0x1_0000)
            by (nonlinear_arith)
            requires
                0 <= j <= 0xffff,
                -1 <= dx <= 1,
                -1 <= dy <= 1,
        ;
        let cx: usize = (ex - (j as i64) * dx) as usize;
        let cy: usize = (ey - (j as i64) * dy) as usize;
        proof {
            image.lemma_in_store(cx as int, cy as int);
            mark.lemma_in_store(cx as int, cy as int);
        }
        let ghost marks = *mark;
        let ghost lengths = *span;
        if j == middle {
            mark.set_pixel(cx, cy, true);
        }
        span.set_pixel(cx, cy, run as u16);
        proof {
            assert(c == (cx as int, cy as int));
            assert forall|x: int, y: int| image.in_bounds(x, y) implies #[trigger] span_at(
                span,
                image,
                x,
                y,
            ) == (if in_run(ex as int, ey as int, dx as int, dy as int, j + 1, x, y) {
                run as u16
            } else {
                span_at(&spans, image, x, y)
            }) by {
                lemma_in_run_step(ex as int, ey as int, dx as int, dy as int, j as int, x, y);
                image.lemma_in_store(x, y);
                assert(span_at(&lengths, image, x, y) == (if in_run(
                    ex as int,
                    ey as int,
                    dx as int,
                    dy as int,
                    j as int,
                    x,
                    y,
                ) {
                    run as u16
                } else {
                    span_at(&spans, image, x, y)
                }));
                if (x, y) != c {
                    if cell_index(x, y, image.width as int) == cell_index(
                        cx as int,
                        cy as int,
                        image.width as int,
                    ) {
                        crate::grid::lemma_cell_index_injective(
                            x,
                            y,
                            cx as int,
                            cy as int,
                            image.width as int,
                        );
                    }
                }
            }
            assert forall|x: int, y: int| image.in_bounds(x, y) implies #[trigger] mark.spec_get(x, y)
                == (before.spec_get(x, y) || (middle < j + 1 && back_cell(
                ex as int,
                ey as int,
                dx as int,
                dy as int,
                middle as int,
            ) == (x, y))) by {
                assert(marks.in_bounds(x, y));
                assert(marks.spec_get(x, y) == (before.spec_get(x, y) || (middle < j && back_cell(
                    ex as int,
                    ey as int,
                    dx as int,
                    dy as int,
                    middle as int,
                ) == (x, y))));
            }
        }
        j += 1;
    }
}

/// The cell `k` steps of `(dx, dy)` on from `(x0, y0)`.
pub open spec fn line_cell(x0: int, y0: int, dx: int, dy: int, k: int) -> (int, int) {
    (x0 + k * dx, y0 + k * dy)
}

/// A step goes to the right, or right and up or down, or down.
pub open spec fn is_step(dx: int, dy: int) -> bool {
    (dx == 1 && -1 <= dy <= 1) || (dx == 0 && dy == 1)
}

/// The number of set pixels in a row that ends at step `k` of the line,
/// counted back to the start of the line at most.
pub open spec fn run_back(image: &BinaryImage, x0: int, y0: int, dx: int, dy: int, k: int) -> int
    decreases k + 1,
{
    if k < 0 || !set_at(image, line_cell(x0, y0, dx, dy, k)) {
        0
    } else {
        1 + run_back(image, x0, y0, dx, dy, k - 1)
    }
}

/// The number of set pixels in a row that starts at step `k` of the
/// line, counted up to step `limit` at most.
pub open spec fn run_ahead(
    image: &BinaryImage,
    x0: int,
    y0: int,
    dx: int,
    dy: int,
    k: int,
    limit: int,
) -> int
    decreases limit - k,
{
    if k >= limit || !set_at(image, line_cell(x0, y0, dx, dy, k)) {
        0
    } else {
        1 + run_ahead(image, x0, y0, dx, dy, k + 1, limit)
    }
}

/// The length of the run of set pixels through step `k` of the line.
pub open spec fn run_length(image: &BinaryImage, x0: int, y0: int, dx: int, dy: int, k: int) -> int {
    run_back(image, x0, y0, dx, dy, k) + run_ahead(
        image,
        x0,
        y0,
        dx,
        dy,
        k,
        image.width + image.height,
    ) - 1
}

/// Is step `k` of the line the middle of its run: the pixel from which
/// one more than half of the run, rounded down, is still ahead?
pub open spec fn is_middle(image: &BinaryImage, x0: int, y0: int, dx: int, dy: int, k: int) -> bool {
    run_ahead(image, x0, y0, dx, dy, k, image.width + image.height) == run_length(
        image,
        x0,
        y0,
        dx,
        dy,
        k,
    ) / 2 + 1
}

/// At step `k` of the line the length of the run is recorded, and the
/// pixel is marked if it was marked before or is the middle of its run.
pub open spec fn recorded(
    image: &BinaryImage,
    span: &MonoImage,
    mark: &BinaryImage,
    before: &BinaryImage,
    x0: int,
    y0: int,
    dx: int,
    dy: int,
    k: int,
) -> bool {
    let c = line_cell(x0, y0, dx, dy, k);
    &&& span_at(span, image, c.0, c.1) == run_length(image, x0, y0, dx, dy, k)
    &&& mark.spec_get(c.0, c.1) == (before.spec_get(c.0, c.1) || is_middle(
        image,
        x0,
        y0,
        dx,
        dy,
        k,
    ))
}

/// Is `(x, y)` a set pixel at one of the first `n` steps of the line?
pub open spec fn on_line(image: &BinaryImage, x0: int, y0: int, dx: int, dy: int, n: int, x: int, y: int) -> bool {
    exists|k: int|
        0 <= k < n && #[trigger] line_cell(x0, y0, dx, dy, k) == (x, y) && set_at(image, (x, y))
}

/// The cell at a step without the products.
proof fn lemma_line_cell(x0: int, y0: int, dx: int, dy: int, k: int)
    requires
        is_step(dx, dy),
    ensures
        line_cell(x0, y0, dx, dy, k) == (x0 + (if dx == 1 {
            k
        } else {
            0
        }), y0 + (if dy == 1 {
            k
        } else if dy == -1 {
            -k
        } else {
            0
        })),
        back_cell(x0, y0, dx, dy, k) == line_cell(x0, y0, dx, dy, -k),
{
    assert(k * dx == (if dx == 1 {
        k
    } else {
        0
    })) by (nonlinear_arith)
        requires
            dx == 1 || dx == 0,
    ;
    assert(k * dy == (if dy == 1 {
        k
    } else if dy == -1 {
        -k
    } else {
        0
    })) by (nonlinear_arith)
        requires
            dy == 1 || dy == 0 || dy == -1,
    ;
    assert((-k) * dx == -(k * dx)) by (nonlinear_arith);
    assert((-k) * dy == -(k * dy)) by (nonlinear_arith);
}

/// The cell `j` steps back from step `t` is the cell at step `t - j`.
proof fn lemma_back_is_line(x0: int, y0: int, dx: int, dy: int, t: int, j: int)
    requires
        is_step(dx, dy),
    ensures
        back_cell(
            line_cell(x0, y0, dx, dy, t).0,
            line_cell(x0, y0, dx, dy, t).1,
            dx,
            dy,
            j,
        ) == line_cell(x0, y0, dx, dy, t - j),
{
    assert(x0 + t * dx - j * dx == x0 + (t - j) * dx) by (nonlinear_arith);
    assert(y0 + t * dy - j * dy == y0 + (t - j) * dy) by (nonlinear_arith);
}

/// Different steps of a line are different cells.
proof fn lemma_line_distinct(x0: int, y0: int, dx: int, dy: int, a: int, b: int)
    requires
        is_step(dx, dy),
        line_cell(x0, y0, dx, dy, a) == line_cell(x0, y0, dx, dy, b),
    ensures
        a == b,
{
    lemma_line_cell(x0, y0, dx, dy, a);
    lemma_line_cell(x0, y0, dx, dy, b);
}

/// A run of `r` set pixels that ends at step `k`: the `r` steps up to `k`
/// are set, each with its count back, and the step before them is not
/// set or lies before the line.
proof fn lemma_run_back(image: &BinaryImage, x0: int, y0: int, dx: int, dy: int, k: int, j: int)
    requires
        0 <= j < run_back(image, x0, y0, dx, dy, k),
    ensures
        k - j >= 0,
        set_at(image, line_cell(x0, y0, dx, dy, k - j)),
        run_back(image, x0, y0, dx, dy, k - j) == run_back(image, x0, y0, dx, dy, k) - j,
    decreases j,
{
    if j > 0 {
        lemma_run_back(image, x0, y0, dx, dy, k, j - 1);
        let m = k - j + 1;
        assert(run_back(image, x0, y0, dx, dy, m) == 1 + run_back(image, x0, y0, dx, dy, m - 1));
    }
    assert(run_back(image, x0, y0, dx, dy, k - j) > 0);
}

/// Where the steps from `k` up to but without `t` are set and step `t` is
/// not, the run ahead of `k` has the length `t - k`.
proof fn lemma_run_ahead(
    image: &BinaryImage,
    x0: int,
    y0: int,
    dx: int,
    dy: int,
    k: int,
    t: int,
    limit: int,
)
    requires
        k <= t <= limit,
        forall|i: int| k <= i < t ==> set_at(image, #[trigger] line_cell(x0, y0, dx, dy, i)),
        !set_at(image, line_cell(x0, y0, dx, dy, t)),
    ensures
        run_ahead(image, x0, y0, dx, dy, k, limit) == t - k,
    decreases t - k,
{
    if k < t {
        assert(set_at(image, line_cell(x0, y0, dx, dy, k)));
        lemma_run_ahead(image, x0, y0, dx, dy, k + 1, t, limit);
    }
}

/// What holds of the steps of a run once it is recorded: the run of `run`
/// pixels ends just before step `t`, which is not set.
proof fn lemma_run_recorded(
    image: &BinaryImage,
    x0: int,
    y0: int,
    dx: int,
    dy: int,
    t: int,
    run: int,
    k: int,
)
    requires
        is_step(dx, dy),
        1 <= run <= t,
        t <= image.width + image.height,
        run == run_back(image, x0, y0, dx, dy, t - 1),
        !set_at(image, line_cell(x0, y0, dx, dy, t)),
        t - run <= k < t,
    ensures
        set_at(image, line_cell(x0, y0, dx, dy, k)),
        run_length(image, x0, y0, dx, dy, k) == run,
        run_ahead(image, x0, y0, dx, dy, k, image.width + image.height) == t - k,
{
    let limit = image.width + image.height;
    assert forall|i: int| t - run <= i < t implies set_at(
        image,
        #[trigger] line_cell(x0, y0, dx, dy, i),
    ) by {
        lemma_run_back(image, x0, y0, dx, dy, t - 1, t - 1 - i);
    }
    lemma_run_ahead(image, x0, y0, dx, dy, k, t, limit);
    lemma_run_back(image, x0, y0, dx, dy, t - 1, t - 1 - k);
}

/// Nothing is recorded or marked but at the set pixels of the first `n`
/// steps of the line: elsewhere `span` and `mark` are as `spans` and
/// `before`.
pub open spec fn kept_off_line(
    image: &BinaryImage,
    span: &MonoImage,
    spans: &MonoImage,
    mark: &BinaryImage,
    before: &BinaryImage,
    x0: int,
    y0: int,
    dx: int,
    dy: int,
    n: int,
) -> bool {
    &&& forall|px: int, py: int|
        image.in_bounds(px, py) && !on_line(image, x0, y0, dx, dy, n, px, py) ==> #[trigger] span_at(
            span,
            image,
            px,
            py,
        ) == span_at(spans, image, px, py)
    &&& forall|px: int, py: int|
        image.in_bounds(px, py) && !on_line(image, x0, y0, dx, dy, n, px, py)
            ==> #[trigger] mark.spec_get(px, py) == before.spec_get(px, py)
}

/// At every set pixel of the first `n` steps of the line the run is
/// recorded.
pub open spec fn recorded_upto(
    image: &BinaryImage,
    span: &MonoImage,
    mark: &BinaryImage,
    before: &BinaryImage,
    x0: int,
    y0: int,
    dx: int,
    dy: int,
    n: int,
) -> bool {
    forall|k: int|
        0 <= k < n && set_at(image, #[trigger] line_cell(x0, y0, dx, dy, k)) ==> recorded(
            image,
            span,
            mark,
            before,
            x0,
            y0,
            dx,
            dy,
            k,
        )
}

/// A set pixel of the first `n` steps of the line is one of the first
/// `m` steps, where `n` is no more than `m`.
proof fn lemma_on_line_more(image: &BinaryImage, x0: int, y0: int, dx: int, dy: int, n: int, m: int, x: int, y: int)
    requires
        n <= m,
        on_line(image, x0, y0, dx, dy, n, x, y),
    ensures
        on_line(image, x0, y0, dx, dy, m, x, y),
{
    let k = choose|k: int|
        0 <= k < n && #[trigger] line_cell(x0, y0, dx, dy, k) == (x, y) && set_at(image, (x, y));
    assert(0 <= k < m && line_cell(x0, y0, dx, dy, k) == (x, y));
}

/// Scans the line of pixels from `(x0, y0)` on in steps of `(dx, dy)`, and
/// records every run of set pixels on it: at every set pixel of the line
/// the length of its run, and a mark at the middle of every run. Nothing
/// else changes.
fn scan_line(
    image: &BinaryImage,
    mark: &mut BinaryImage,
    span: &mut MonoImage,
    x0: usize,
    y0: usize,
    dx: i64,
    dy: i64,
)
    requires
        fitting(image, old(mark), old(span)),
        image.in_bounds(x0 as int, y0 as int),
        (dx == 1 && -1 <= dy <= 1) || (dx == 0 && dy == 1),
    ensures
        fitting(image, final(mark), final(span)),
        grown_within(final(mark), old(mark), image),
        forall|k: int|
            0 <= k && set_at(image, #[trigger] line_cell(x0 as int, y0 as int, dx as int, dy as int, k))
                ==> recorded(
                image,
                final(span),
                final(mark),
                old(mark),
                x0 as int,
                y0 as int,
                dx as int,
                dy as int,
                k,
            ),
        kept_off_line(
            image,
            final(span),
            old(span),
            final(mark),
            old(mark),
            x0 as int,
            y0 as int,
            dx as int,
            dy as int,
            image.width + image.height,
        ),
{
    let ghost before = *mark;
    let ghost spans = *span;
    let ghost limit = image.width + image.height;
    let ghost ox = x0 as int;
    let ghost oy = y0 as int;
    let ghost sx = dx as int;
    let ghost sy = dy as int;
    let w: i64 = image.width as i64;
    let h: i64 = image.height as i64;
    let mut x: i64 = x0 as i64;
    let mut y: i64 = y0 as i64;
    let mut run: usize = 0;
    let ghost mut t: int = 0;
    let ghost mut done: int = 0;
    let ghost mut now_span = *span;
    let ghost mut now_mark = *mark;
    proof {
        lemma_line_cell(ox, oy, sx, sy, 0);
    }
    while 0 <= x && x < w && 0 <= y && y < h
        invariant
            fitting(image, mark, span),
            w == image.width,
            h == image.height,
            limit == image.width + image.height,
            ox == x0,
            oy == y0,
            sx == dx,
            sy == dy,
            image.in_bounds(ox, oy),
            is_step(sx, sy),
            (dx == 1 && -1 <= dy <= 1) || (dx == 0 && dy == 1),
            -1 <= x <= w,
            -1 <= y <= h,
            0 <= t,
            (x as int, y as int) == line_cell(ox, oy, sx, sy, t),
            run == run_back(image, ox, oy, sx, sy, t - 1),
            run <= t,
            done == t - run,
            dx == 1 ==> run <= x - x0,
            dx == 0 ==> run <= y - y0,
            dx == 1 ==> t == x - x0,
            dx == 0 ==> t == y - y0,
            forall|j: int|
                1 <= j <= run ==> set_at(
                    image,
                    #[trigger] back_cell(x as int, y as int, dx as int, dy as int, j),
                ),
            grown_within(mark, &before, image),
            now_span == *span,
            now_mark == *mark,
            recorded_upto(image, &now_span, &now_mark, &before, ox, oy, sx, sy, done),
            kept_off_line(image, &now_span, &spans, &now_mark, &before, ox, oy, sx, sy, done),
        decreases
                (if dx == 1 {
                    w - x
                } else {
                    h - y
                }),
    {
        proof {
            image.lemma_in_store(x as int, y as int);
        }
        if image.get_pixel(x as usize, y as usize) {
            run += 1;
        } else {
            if run > 0 {
                let ghost marks = *mark;
                let ghost lengths = *span;
                mark_run(Ghost(image), mark, span, x, y, dx, dy, run);
                proof {
                    now_span = *span;
                    now_mark = *mark;
                    lemma_after_run(
                        image,
                        &spans,
                        &before,
                        &lengths,
                        &marks,
                        &now_span,
                        &now_mark,
                        ox,
                        oy,
                        sx,
                        sy,
                        t,
                        run as int,
                    );
                }
            } else {
                proof {
                    lemma_step_unset(image, &spans, &before, &now_span, &now_mark, ox, oy, sx, sy, t);
                }
            }
            run = 0;
            proof {
                done = t + 1;
            }
        }
        proof {
            let nx = x + dx;
            let ny = y + dy;
            assert forall|j: int| 1 <= j <= run implies set_at(
                image,
                #[trigger] back_cell(nx as int, ny as int, dx as int, dy as int, j),
            ) by {
                assert((x + dx) - j * dx == x - (j - 1) * dx) by (nonlinear_arith);
                assert((y + dy) - j * dy == y - (j - 1) * dy) by (nonlinear_arith);
                if j >= 2 {
                    assert(set_at(image, back_cell(x as int, y as int, dx as int, dy as int, j - 1)));
                }
            }
            lemma_line_cell(ox, oy, sx, sy, t);
            lemma_line_cell(ox, oy, sx, sy, t + 1);
            t = t + 1;
        }
        x += dx;
        y += dy;
    }
    proof {
        lemma_line_cell(ox, oy, sx, sy, t);
        assert(!set_at(image, line_cell(ox, oy, sx, sy, t)));
        assert(t <= limit);
    }
    if run > 0 {
        let ghost marks = *mark;
        let ghost lengths = *span;
        mark_run(Ghost(image), mark, span, x, y, dx, dy, run);
        proof {
            now_span = *span;
            now_mark = *mark;
            lemma_after_run(
                image,
                &spans,
                &before,
                &lengths,
                &marks,
                &now_span,
                &now_mark,
                ox,
                oy,
                sx,
                sy,
                t,
                run as int,
            );
        }
    } else {
        proof {
            lemma_step_unset(image, &spans, &before, &now_span, &now_mark, ox, oy, sx, sy, t);
        }
    }
    proof {
        assert(now_span == *span && now_mark == *mark);
        // past the end of the line no pixel is set
        assert forall|k: int|
            0 <= k && set_at(image, #[trigger] line_cell(ox, oy, sx, sy, k)) implies recorded(
            image,
            &now_span,
            &now_mark,
            &before,
            ox,
            oy,
            sx,
            sy,
            k,
        ) by {
            lemma_line_cell(ox, oy, sx, sy, k);
            assert(k < t + 1);
        }
        assert forall|px: int, py: int|
            image.in_bounds(px, py) && !on_line(
                image,
                ox,
                oy,
                sx,
                sy,
                limit,
                px,
                py,
            ) implies #[trigger] span_at(&now_span, image, px, py) == span_at(&spans, image, px, py) by {
            lemma_off_line(image, ox, oy, sx, sy, t, limit, px, py);
        }
        assert forall|px: int, py: int|
            image.in_bounds(px, py) && !on_line(
                image,
                ox,
                oy,
                sx,
                sy,
                limit,
                px,
                py,
            ) implies #[trigger] now_mark.spec_get(px, py) == before.spec_get(px, py) by {
            lemma_off_line(image, ox, oy, sx, sy, t, limit, px, py);
        }
    }
}

/// A pixel that is no set pixel of the first `limit` steps of a line that
/// ends before step `t` is none of the first `t + 1` steps.
proof fn lemma_off_line(image: &BinaryImage, x0: int, y0: int, dx: int, dy: int, t: int, limit: int, x: int, y: int)
    requires
        0 <= t <= limit,
        !set_at(image, line_cell(x0, y0, dx, dy, t)),
        !on_line(image, x0, y0, dx, dy, limit, x, y),
    ensures
        !on_line(image, x0, y0, dx, dy, t + 1, x, y),
{
    if on_line(image, x0, y0, dx, dy, t + 1, x, y) {
        let k = choose|k: int|
            0 <= k < t + 1 && #[trigger] line_cell(x0, y0, dx, dy, k) == (x, y) && set_at(
                image,
                (x, y),
            );
        assert(k != t);
        assert(0 <= k < limit && line_cell(x0, y0, dx, dy, k) == (x, y));
        assert(on_line(image, x0, y0, dx, dy, limit, x, y));
    }
}

/// After a step that is not set and has no run before it, what is
/// recorded of the steps so far holds of one step more.
proof fn lemma_step_unset(
    image: &BinaryImage,
    spans: &MonoImage,
    before: &BinaryImage,
    span: &MonoImage,
    mark: &BinaryImage,
    x0: int,
    y0: int,
    dx: int,
    dy: int,
    t: int,
)
    requires
        is_step(dx, dy),
        0 <= t,
        !set_at(image, line_cell(x0, y0, dx, dy, t)),
        recorded_upto(image, span, mark, before, x0, y0, dx, dy, t),
        kept_off_line(image, span, spans, mark, before, x0, y0, dx, dy, t),
    ensures
        recorded_upto(image, span, mark, before, x0, y0, dx, dy, t + 1),
        kept_off_line(image, span, spans, mark, before, x0, y0, dx, dy, t + 1),
{
    assert forall|px: int, py: int|
        image.in_bounds(px, py) && !on_line(image, x0, y0, dx, dy, t + 1, px, py) implies #[trigger] span_at(
        span,
        image,
        px,
        py,
    ) == span_at(spans, image, px, py) by {
        if on_line(image, x0, y0, dx, dy, t, px, py) {
            lemma_on_line_more(image, x0, y0, dx, dy, t, t + 1, px, py);
        }
    }
    assert forall|px: int, py: int|
        image.in_bounds(px, py) && !on_line(image, x0, y0, dx, dy, t + 1, px, py) implies #[trigger] mark.spec_get(
        px,
        py,
    ) == before.spec_get(px, py) by {
        if on_line(image, x0, y0, dx, dy, t, px, py) {
            lemma_on_line_more(image, x0, y0, dx, dy, t, t + 1, px, py);
        }
    }
}

/// After a run is recorded, what is recorded of the steps so far holds of
/// the steps of the run and the step after it too.
proof fn lemma_after_run(
    image: &BinaryImage,
    spans: &MonoImage,
    before: &BinaryImage,
    lengths: &MonoImage,
    marks: &BinaryImage,
    span: &MonoImage,
    mark: &BinaryImage,
    x0: int,
    y0: int,
    dx: int,
    dy: int,
    t: int,
    run: int,
)
    requires
        is_step(dx, dy),
        image.wf(),
        1 <= run <= t,
        run <= u16::MAX,
        t <= image.width + image.height,
        run == run_back(image, x0, y0, dx, dy, t - 1),
        !set_at(image, line_cell(x0, y0, dx, dy, t)),
        recorded_upto(image, lengths, marks, before, x0, y0, dx, dy, t - run),
        kept_off_line(image, lengths, spans, marks, before, x0, y0, dx, dy, t - run),
        forall|px: int, py: int|
            image.in_bounds(px, py) ==> #[trigger] span_at(span, image, px, py) == (if in_run(
                line_cell(x0, y0, dx, dy, t).0,
                line_cell(x0, y0, dx, dy, t).1,
                dx,
                dy,
                run + 1,
                px,
                py,
            ) {
                run as u16
            } else {
                span_at(lengths, image, px, py)
            }),
        forall|px: int, py: int|
            image.in_bounds(px, py) ==> #[trigger] mark.spec_get(px, py) == (marks.spec_get(px, py)
                || back_cell(
                line_cell(x0, y0, dx, dy, t).0,
                line_cell(x0, y0, dx, dy, t).1,
                dx,
                dy,
                run / 2 + 1,
            ) == (px, py)),
    ensures
        recorded_upto(image, span, mark, before, x0, y0, dx, dy, t + 1),
        kept_off_line(image, span, spans, mark, before, x0, y0, dx, dy, t + 1),
{
    let ex = line_cell(x0, y0, dx, dy, t).0;
    let ey = line_cell(x0, y0, dx, dy, t).1;
    assert forall|k: int|
        0 <= k < t + 1 && set_at(image, #[trigger] line_cell(x0, y0, dx, dy, k)) implies recorded(
        image,
        span,
        mark,
        before,
        x0,
        y0,
        dx,
        dy,
        k,
    ) by {
        let c = line_cell(x0, y0, dx, dy, k);
        lemma_back_is_line(x0, y0, dx, dy, t, run / 2 + 1);
        if k < t - run {
            // a step before the run: nothing of it has changed
            assert(recorded(image, lengths, marks, before, x0, y0, dx, dy, k));
            if in_run(ex, ey, dx, dy, run + 1, c.0, c.1) {
                let j = choose|j: int|
                    1 <= j < run + 1 && #[trigger] back_cell(ex, ey, dx, dy, j) == (c.0, c.1);
                lemma_back_is_line(x0, y0, dx, dy, t, j);
                lemma_line_distinct(x0, y0, dx, dy, k, t - j);
            }
            if back_cell(ex, ey, dx, dy, run / 2 + 1) == c {
                lemma_line_distinct(x0, y0, dx, dy, k, t - (run / 2 + 1));
            }
        } else {
            // a step of the run
            assert(k < t);
            lemma_run_recorded(image, x0, y0, dx, dy, t, run, k);
            lemma_back_is_line(x0, y0, dx, dy, t, t - k);
            assert(back_cell(ex, ey, dx, dy, t - k) == (c.0, c.1));
            assert(in_run(ex, ey, dx, dy, run + 1, c.0, c.1));
            if on_line(image, x0, y0, dx, dy, t - run, c.0, c.1) {
                let i = choose|i: int|
                    0 <= i < t - run && #[trigger] line_cell(x0, y0, dx, dy, i) == (c.0, c.1)
                        && set_at(image, (c.0, c.1));
                lemma_line_distinct(x0, y0, dx, dy, i, k);
            }
            assert(marks.spec_get(c.0, c.1) == before.spec_get(c.0, c.1));
            if back_cell(ex, ey, dx, dy, run / 2 + 1) == c {
                lemma_line_distinct(x0, y0, dx, dy, k, t - (run / 2 + 1));
            }
        }
    }
    assert forall|px: int, py: int|
        image.in_bounds(px, py) && !on_line(image, x0, y0, dx, dy, t + 1, px, py) implies #[trigger] span_at(
        span,
        image,
        px,
        py,
    ) == span_at(spans, image, px, py) by {
        if on_line(image, x0, y0, dx, dy, t - run, px, py) {
            lemma_on_line_more(image, x0, y0, dx, dy, t - run, t + 1, px, py);
        }
        if in_run(ex, ey, dx, dy, run + 1, px, py) {
            let j = choose|j: int|
                1 <= j < run + 1 && #[trigger] back_cell(ex, ey, dx, dy, j) == (px, py);
            lemma_back_is_line(x0, y0, dx, dy, t, j);
            lemma_run_recorded(image, x0, y0, dx, dy, t, run, t - j);
            assert(0 <= t - j < t + 1 && line_cell(x0, y0, dx, dy, t - j) == (px, py));
            assert(set_at(image, (px, py)));
            assert(on_line(image, x0, y0, dx, dy, t + 1, px, py));
        }
        assert(span_at(lengths, image, px, py) == span_at(spans, image, px, py));
    }
    assert forall|px: int, py: int|
        image.in_bounds(px, py) && !on_line(image, x0, y0, dx, dy, t + 1, px, py) implies #[trigger] mark.spec_get(
        px,
        py,
    ) == before.spec_get(px, py) by {
        if on_line(image, x0, y0, dx, dy, t - run, px, py) {
            lemma_on_line_more(image, x0, y0, dx, dy, t - run, t + 1, px, py);
        }
        if back_cell(ex, ey, dx, dy, run / 2 + 1) == (px, py) {
            lemma_back_is_line(x0, y0, dx, dy, t, run / 2 + 1);
            lemma_run_recorded(image, x0, y0, dx, dy, t, run, t - (run / 2 + 1));
            assert(0 <= t - (run / 2 + 1) < t + 1 && line_cell(x0, y0, dx, dy, t - (run / 2 + 1))
                == (px, py));
            assert(set_at(image, (px, py)));
            assert(on_line(image, x0, y0, dx, dy, t + 1, px, py));
        }
        assert(marks.spec_get(px, py) == before.spec_get(px, py));
    }
}

/// The least of four.
fn least(a: u16, b: u16, c: u16, d: u16) -> (m: u16)
    ensures
        m <= a && m <= b && m <= c && m <= d,
        m == a || m == b || m == c || m == d,
{
    let ab = if a <= b {
        a
    } else {
        b
    };
    let cd = if c <= d {
        c
    } else {
        d
    };
    if ab <= cd {
        ab
    } else {
        cd
    }
}

/// The number of the line through `(x, y)` in steps of `(dx, dy)`: its
/// row, its column, or what stays the same along the diagonal.
pub open spec fn line_id(dx: int, dy: int, x: int, y: int) -> int {
    if dy == 0 {
        y
    } else if dx == 0 {
        x
    } else if dy == -1 {
        x + y
    } else {
        x - y
    }
}

/// Where the line of number `id` enters an image `h` high.
pub open spec fn line_entry(h: int, dx: int, dy: int, id: int) -> (int, int) {
    if dy == 0 {
        (0, id)
    } else if dx == 0 {
        (id, 0)
    } else if dy == -1 {
        if id < h {
            (0, id)
        } else {
            (id - (h - 1), h - 1)
        }
    } else {
        if id >= 0 {
            (id, 0)
        } else {
            (0, -id)
        }
    }
}

/// How many steps of `(dx, dy)` lead from the edge of the image to
/// `(x, y)`.
pub open spec fn line_pos(h: int, dx: int, dy: int, x: int, y: int) -> int {
    let e = line_entry(h, dx, dy, line_id(dx, dy, x, y));
    if dx == 1 {
        x - e.0
    } else {
        y - e.1
    }
}

/// The length of the run of set pixels through `(x, y)` in steps of
/// `(dx, dy)`.
pub open spec fn run_through(image: &BinaryImage, dx: int, dy: int, x: int, y: int) -> int {
    let e = line_entry(image.height as int, dx, dy, line_id(dx, dy, x, y));
    run_length(image, e.0, e.1, dx, dy, line_pos(image.height as int, dx, dy, x, y))
}

/// Is `(x, y)` the middle of its run in steps of `(dx, dy)`?
pub open spec fn in_middle(image: &BinaryImage, dx: int, dy: int, x: int, y: int) -> bool {
    let e = line_entry(image.height as int, dx, dy, line_id(dx, dy, x, y));
    is_middle(image, e.0, e.1, dx, dy, line_pos(image.height as int, dx, dy, x, y))
}

/// `span` and `mark` hold the runs in steps of `(dx, dy)` on the lines
/// whose numbers are in `done`: at every set pixel of such a line the
/// length of its run, and a mark where it is the middle of its run.
/// Everywhere else no length and no mark.
pub open spec fn measured_where(
    image: &BinaryImage,
    span: &MonoImage,
    mark: &BinaryImage,
    dx: int,
    dy: int,
    done: Set<int>,
) -> bool {
    &&& fitting(image, mark, span)
    &&& forall|x: int, y: int|
        image.in_bounds(x, y) ==> #[trigger] mark.spec_get(x, y) == (image.spec_get(x, y)
            && done.contains(line_id(dx, dy, x, y)) && in_middle(image, dx, dy, x, y))
    &&& forall|x: int, y: int|
        image.in_bounds(x, y) ==> #[trigger] span_at(span, image, x, y) == (if image.spec_get(x, y)
            && done.contains(line_id(dx, dy, x, y)) {
            run_through(image, dx, dy, x, y)
        } else {
            0
        })
}

/// The numbers of the lines that are scanned in steps of `(dx, dy)` in
/// an image `w` wide: all, but for the falling diagonal that is the top
/// right corner alone.
pub open spec fn lines_scanned(w: int, dx: int, dy: int) -> Set<int> {
    Set::new(|d: int| !(dx == 1 && dy == 1 && w >= 2 && d == w - 1))
}

/// `span` and `mark` hold the runs in steps of `(dx, dy)` of every line
/// that is scanned.
pub open spec fn measured(image: &BinaryImage, span: &MonoImage, mark: &BinaryImage, dx: int, dy: int) -> bool {
    measured_where(image, span, mark, dx, dy, lines_scanned(image.width as int, dx, dy))
}

/// Before any line is scanned nothing is measured.
proof fn lemma_blank_measured(
    image: &BinaryImage,
    span: &MonoImage,
    mark: &BinaryImage,
    dx: int,
    dy: int,
    done: Set<int>,
)
    requires
        fitting(image, mark, span),
        forall|i: int| 0 <= i < span@.len() ==> #[trigger] span@[i] == 0,
        forall|x: int, y: int| image.in_bounds(x, y) ==> !(#[trigger] mark.spec_get(x, y)),
        forall|x: int, y: int|
            image.in_bounds(x, y) ==> !done.contains(#[trigger] line_id(dx, dy, x, y)),
    ensures
        measured_where(image, span, mark, dx, dy, done),
{
    assert forall|x: int, y: int| image.in_bounds(x, y) implies #[trigger] mark.spec_get(x, y) == (
    image.spec_get(x, y) && done.contains(line_id(dx, dy, x, y)) && in_middle(
        image,
        dx,
        dy,
        x,
        y,
    )) by {
        assert(!done.contains(line_id(dx, dy, x, y)));
    }
    assert forall|x: int, y: int| image.in_bounds(x, y) implies #[trigger] span_at(
        span,
        image,
        x,
        y,
    ) == (if image.spec_get(x, y) && done.contains(line_id(dx, dy, x, y)) {
        run_through(image, dx, dy, x, y)
    } else {
        0
    }) by {
        assert(!done.contains(line_id(dx, dy, x, y)));
        crate::grid::lemma_cell_index_bound(x, y, image.width as int, image.height as int);
    }
}

/// What is measured depends on the lines of the image's own pixels only.
proof fn lemma_measured_same(
    image: &BinaryImage,
    span: &MonoImage,
    mark: &BinaryImage,
    dx: int,
    dy: int,
    a: Set<int>,
    b: Set<int>,
)
    requires
        measured_where(image, span, mark, dx, dy, a),
        forall|x: int, y: int|
            image.in_bounds(x, y) ==> a.contains(#[trigger] line_id(dx, dy, x, y)) == b.contains(
                line_id(dx, dy, x, y),
            ),
    ensures
        measured_where(image, span, mark, dx, dy, b),
{
    assert forall|x: int, y: int| image.in_bounds(x, y) implies #[trigger] mark.spec_get(x, y) == (
    image.spec_get(x, y) && b.contains(line_id(dx, dy, x, y)) && in_middle(image, dx, dy, x, y)) by {
        assert(a.contains(line_id(dx, dy, x, y)) == b.contains(line_id(dx, dy, x, y)));
    }
    assert forall|x: int, y: int| image.in_bounds(x, y) implies #[trigger] span_at(
        span,
        image,
        x,
        y,
    ) == (if image.spec_get(x, y) && b.contains(line_id(dx, dy, x, y)) {
        run_through(image, dx, dy, x, y)
    } else {
        0
    }) by {
        assert(a.contains(line_id(dx, dy, x, y)) == b.contains(line_id(dx, dy, x, y)));
    }
}

/// Is `(x, y)` marked as the middle of its run in steps of `(dx, dy)`?
pub open spec fn mid_at(image: &BinaryImage, dx: int, dy: int, x: int, y: int) -> bool {
    image.spec_get(x, y) && lines_scanned(image.width as int, dx, dy).contains(
        line_id(dx, dy, x, y),
    ) && in_middle(image, dx, dy, x, y)
}

/// The length recorded at `(x, y)` for its run in steps of `(dx, dy)`; 0
/// where none is.
pub open spec fn len_at(image: &BinaryImage, dx: int, dy: int, x: int, y: int) -> int {
    if image.spec_get(x, y) && lines_scanned(image.width as int, dx, dy).contains(
        line_id(dx, dy, x, y),
    ) {
        run_through(image, dx, dy, x, y)
    } else {
        0
    }
}

/// The width of the shape at `(x, y)`: the length of the shortest of the
/// four runs through it, if the pixel is the middle of that run; of runs
/// of one length the row counts before the column, the column before the
/// rising diagonal, and that before the falling one. 0 where the pixel is
/// not the middle of its shortest run.
pub open spec fn spec_width_at(image: &BinaryImage, x: int, y: int) -> int {
    let sx = len_at(image, 1, 0, x, y);
    let sy = len_at(image, 0, 1, x, y);
    let sxy = len_at(image, 1, -1, x, y);
    let syx = len_at(image, 1, 1, x, y);
    if mid_at(image, 1, 1, x, y) && syx < sx && syx < sy && syx < sxy {
        syx
    } else if mid_at(image, 1, -1, x, y) && sxy < sx && sxy < sy && sxy <= syx {
        sxy
    } else if mid_at(image, 0, 1, x, y) && sy < sx && sy <= sxy && sy <= syx {
        sy
    } else if mid_at(image, 1, 0, x, y) && sx <= sy && sx <= sxy && sx <= syx {
        sx
    } else {
        0
    }
}

/// Is `(x, y)` a pixel of the thin picture: the middle of its shortest
/// run, and no boundary pixel of a part that is more than one pixel wide
/// in every direction?
pub open spec fn thin_at(image: &BinaryImage, x: int, y: int) -> bool {
    let sx = len_at(image, 1, 0, x, y);
    let sy = len_at(image, 0, 1, x, y);
    let sxy = len_at(image, 1, -1, x, y);
    let syx = len_at(image, 1, 1, x, y);
    &&& (mid_at(image, 1, 0, x, y) && sx <= sy && sx <= sxy && sx <= syx) || (mid_at(
        image,
        0,
        1,
        x,
        y,
    ) && sy < sx && sy <= sxy && sy <= syx) || (mid_at(image, 1, -1, x, y) && sxy < sx && sxy < sy
        && sxy <= syx) || (mid_at(image, 1, 1, x, y) && syx < sx && syx < sy && syx < sxy)
    &&& !(crate::shape::geometry::is_boundary(image, x, y) && sx > 1 && sy > 1 && sxy > 1 && syx
        > 1)
}

/// Is `(x, y)` still a pixel of the skeleton when the first `n` pixels of
/// the thin picture, row by row, have been looked at? A pixel that has
/// none of its eight neighbours left when it is looked at is taken out.
pub open spec fn kept_upto(image: &BinaryImage, n: int, x: int, y: int) -> bool
    decreases n, 0int,
{
    if n <= 0 {
        thin_at(image, x, y)
    } else {
        let cx = (n - 1) % (image.width as int);
        let cy = (n - 1) / (image.width as int);
        kept_upto(image, n - 1, x, y) && !(x == cx && y == cy && !has_near(image, n - 1, x, y))
    }
}

/// Is `(x, y)` inside the image and still a pixel of the skeleton?
pub open spec fn near(image: &BinaryImage, n: int, x: int, y: int) -> bool
    decreases n, 1int,
{
    n >= 0 && image.in_bounds(x, y) && kept_upto(image, n, x, y)
}

/// Has `(x, y)` a neighbour, along an axis or a diagonal, that is still
/// a pixel of the skeleton?
pub open spec fn has_near(image: &BinaryImage, n: int, x: int, y: int) -> bool
    decreases n, 2int,
{
    near(image, n, x - 1, y) || near(image, n, x + 1, y) || near(image, n, x, y - 1) || near(
        image,
        n,
        x,
        y + 1,
    ) || near(image, n, x - 1, y - 1) || near(image, n, x - 1, y + 1) || near(
        image,
        n,
        x + 1,
        y - 1,
    ) || near(image, n, x + 1, y + 1)
}

/// What is left of the skeleton is part of the thin picture.
proof fn lemma_kept_is_thin(image: &BinaryImage, n: int, x: int, y: int)
    ensures
        kept_upto(image, n, x, y) ==> thin_at(image, x, y),
    decreases n,
{
    if n > 0 {
        lemma_kept_is_thin(image, n - 1, x, y);
    }
}

/// The widths measured at the first `n` pixels, row by row: one for every
/// pixel that stays on the skeleton and has a width.
pub open spec fn widths_upto(image: &BinaryImage, n: int) -> Seq<u16>
    decreases n,
{
    if n <= 0 {
        Seq::empty()
    } else {
        let cx = (n - 1) % (image.width as int);
        let cy = (n - 1) / (image.width as int);
        let before = widths_upto(image, n - 1);
        if kept_upto(image, n - 1, cx, cy) && has_near(image, n - 1, cx, cy) && spec_width_at(
            image,
            cx,
            cy,
        ) > 0 {
            before.push(spec_width_at(image, cx, cy) as u16)
        } else {
            before
        }
    }
}

/// A pixel lies on the line that enters the image at `(x0, y0)` where
/// its line has the number of `(x0, y0)`, and then at the step that its
/// place on the line gives.
proof fn lemma_on_line(image: &BinaryImage, x0: int, y0: int, dx: int, dy: int, x: int, y: int)
    requires
        is_step(dx, dy),
        image.in_bounds(x0, y0),
        image.in_bounds(x, y),
        line_entry(image.height as int, dx, dy, line_id(dx, dy, x0, y0)) == (x0, y0),
    ensures
        line_id(dx, dy, x, y) == line_id(dx, dy, x0, y0) ==> 0 <= line_pos(
            image.height as int,
            dx,
            dy,
            x,
            y,
        ) < image.width + image.height && line_cell(
            x0,
            y0,
            dx,
            dy,
            line_pos(image.height as int, dx, dy, x, y),
        ) == (x, y),
        forall|k: int| #[trigger]
            line_cell(x0, y0, dx, dy, k) == (x, y) ==> line_id(dx, dy, x, y) == line_id(
                dx,
                dy,
                x0,
                y0,
            ),
{
    if line_id(dx, dy, x, y) == line_id(dx, dy, x0, y0) {
        lemma_line_cell(x0, y0, dx, dy, line_pos(image.height as int, dx, dy, x, y));
    }
    assert forall|k: int| #[trigger] line_cell(x0, y0, dx, dy, k) == (x, y) implies line_id(
        dx,
        dy,
        x,
        y,
    ) == line_id(dx, dy, x0, y0) by {
        lemma_line_cell(x0, y0, dx, dy, k);
    }
}

/// Scans one more line, the one that enters the image at `(x0, y0)`.
fn scan_next(
    image: &BinaryImage,
    mark: &mut BinaryImage,
    span: &mut MonoImage,
    x0: usize,
    y0: usize,
    dx: i64,
    dy: i64,
    Ghost(done): Ghost<Set<int>>,
)
    requires
        measured_where(image, old(span), old(mark), dx as int, dy as int, done),
        image.in_bounds(x0 as int, y0 as int),
        is_step(dx as int, dy as int),
        line_entry(
            image.height as int,
            dx as int,
            dy as int,
            line_id(dx as int, dy as int, x0 as int, y0 as int),
        ) == (x0 as int, y0 as int),
    ensures
        measured_where(
            image,
            final(span),
            final(mark),
            dx as int,
            dy as int,
            done.insert(line_id(dx as int, dy as int, x0 as int, y0 as int)),
        ),
{
    scan_line(image, mark, span, x0, y0, dx, dy);
    proof {
        let sx = dx as int;
        let sy = dy as int;
        let ox = x0 as int;
        let oy = y0 as int;
        let id = line_id(sx, sy, ox, oy);
        let more = done.insert(id);
        let limit = image.width + image.height;
        assert forall|x: int, y: int| image.in_bounds(x, y) implies #[trigger] mark.spec_get(x, y)
            == (image.spec_get(x, y) && more.contains(line_id(sx, sy, x, y)) && in_middle(
            image,
            sx,
            sy,
            x,
            y,
        )) && span_at(span, image, x, y) == (if image.spec_get(x, y) && more.contains(
            line_id(sx, sy, x, y),
        ) {
            run_through(image, sx, sy, x, y)
        } else {
            0
        }) by {
            lemma_on_line(image, ox, oy, sx, sy, x, y);
            assert(span_at(old(span), image, x, y) == (if image.spec_get(x, y) && done.contains(
                line_id(sx, sy, x, y),
            ) {
                run_through(image, sx, sy, x, y)
            } else {
                0
            }));
            if image.spec_get(x, y) && line_id(sx, sy, x, y) == id {
                let k = line_pos(image.height as int, sx, sy, x, y);
                assert(set_at(image, line_cell(ox, oy, sx, sy, k)));
                assert(recorded(image, span, mark, old(mark), ox, oy, sx, sy, k));
            } else {
                if on_line(image, ox, oy, sx, sy, limit, x, y) {
                    let k = choose|k: int|
                        0 <= k < limit && #[trigger] line_cell(ox, oy, sx, sy, k) == (x, y)
                            && set_at(image, (x, y));
                    assert(false);
                }
                assert(span_at(span, image, x, y) == span_at(old(span), image, x, y));
                assert(mark.spec_get(x, y) == old(mark).spec_get(x, y));
            }
        }
    }
}

impl Shape {
    /// The skeleton of the shape's image, with the widths measured along
    /// it.
    pub fn to_skeleton(&self) -> (s: Skeleton)
        requires
            self.image.wf(),
            self.image.width <= u16::MAX,
            self.image.height <= u16::MAX,
        ensures
            s.image.wf(),
            s.image.width == self.image.width,
            s.image.height == self.image.height,
            forall|x: int, y: int|
                self.image.in_bounds(x, y) && #[trigger] s.image.spec_get(x, y)
                    ==> self.image.spec_get(x, y),
            s.widths@.len() <= self.image.width * self.image.height,
            forall|k: int| 0 <= k < s.widths@.len() ==> #[trigger] s.widths@[k] >= 1,
            forall|x: int, y: int|
                self.image.in_bounds(x, y) ==> #[trigger] s.image.spec_get(x, y) == kept_upto(
                    &self.image,
                    self.image.width * self.image.height,
                    x,
                    y,
                ),
            s.widths@ == widths_upto(&self.image, self.image.width * self.image.height),
    {
        self.image.to_skeleton()
    }
}

impl BinaryImage {
    /// A fast skeletonization. Every run of set pixels along a row, a
    /// column and the two diagonals is measured; the pixel in the middle
    /// of a run belongs to the thin picture where no run through it in
    /// another direction is shorter, but for boundary pixels of parts
    /// that are wider than one pixel in every direction (`thin_at`). Then
    /// the pixels are looked at row by row: one without a neighbour left
    /// is taken out, and for every other one its width is noted
    /// (`kept_upto`, `widths_upto`).
    pub fn to_skeleton(&self) -> (s: Skeleton)
        requires
            self.wf(),
            self.width <= u16::MAX,
            self.height <= u16::MAX,
        ensures
            s.image.wf(),
            s.image.width == self.width,
            s.image.height == self.height,
            forall|x: int, y: int|
                self.in_bounds(x, y) && #[trigger] s.image.spec_get(x, y) ==> self.spec_get(x, y),
            s.widths@.len() <= self.width * self.height,
            forall|k: int| 0 <= k < s.widths@.len() ==> #[trigger] s.widths@[k] >= 1,
            forall|x: int, y: int|
                self.in_bounds(x, y) ==> #[trigger] s.image.spec_get(x, y) == kept_upto(
                    self,
                    self.width * self.height,
                    x,
                    y,
                ),
            s.widths@ == widths_upto(self, self.width * self.height),
    {
        let w = self.width;
        let h = self.height;
        assert(w * h <= 0xffff * 0xffff) by (nonlinear_arith)
            requires
                0 <= w <= 0xffff,
                0 <= h <= 0xffff,
        ;
        let mut result = BinaryImage::new_w_h(w, h);
        let mut widths: Vec<u16> = Vec::new();
        if w == 0 || h == 0 {
            proof {
                assert(w * h == 0) by (nonlinear_arith)
                    requires
                        w == 0 || h == 0,
                ;
            }
            return Skeleton { image: result, widths };
        }
        let boundary = Shape::image_boundary(self);
        let mut centerx = BinaryImage::new_w_h(w, h);
        let mut centery = BinaryImage::new_w_h(w, h);
        let mut centerxy = BinaryImage::new_w_h(w, h);
        let mut centeryx = BinaryImage::new_w_h(w, h);
        let mut spanx = MonoImage::new_w_h(w, h);
        let mut spany = MonoImage::new_w_h(w, h);
        let mut spanxy = MonoImage::new_w_h(w, h);
        let mut spanyx = MonoImage::new_w_h(w, h);
        proof {
            assert forall|i: int| 0 <= i < w * h implies spanx@[i] == 0 && spany@[i] == 0
                && spanxy@[i] == 0 && spanyx@[i] == 0 by {}
            lemma_blank_measured(self, &spanx, &centerx, 1, 0, Set::new(|d: int| d < 0));
            lemma_blank_measured(self, &spany, &centery, 0, 1, Set::new(|d: int| d < 0));
            lemma_blank_measured(self, &spanxy, &centerxy, 1, -1, Set::new(|d: int| d < 0));
            lemma_blank_measured(self, &spanyx, &centeryx, 1, 1, Set::empty());
        }

        // the runs along every row
        let mut y: usize = 0;
        while y < h
            invariant
                w == self.width,
                h == self.height,
                0 < w,
                y <= h,
                measured_where(self, &spanx, &centerx, 1, 0, Set::new(|d: int| d < y)),
            decreases h - y,
        {
            let ghost done = Set::new(|d: int| d < y);
            scan_next(self, &mut centerx, &mut spanx, 0, y, 1, 0, Ghost(done));
            proof {
                assert(done.insert(y as int) =~= Set::new(|d: int| d < y + 1));
            }
            y += 1;
        }
        // the runs along every column
        let mut x: usize = 0;
        while x < w
            invariant
                w == self.width,
                h == self.height,
                0 < h,
                x <= w,
                measured_where(self, &spany, &centery, 0, 1, Set::new(|d: int| d < x)),
            decreases w - x,
        {
            let ghost done = Set::new(|d: int| d < x);
            scan_next(self, &mut centery, &mut spany, x, 0, 0, 1, Ghost(done));
            proof {
                assert(done.insert(x as int) =~= Set::new(|d: int| d < x + 1));
            }
            x += 1;
        }
        // the runs along every diagonal that rises to the right
        let mut yy: usize = 0;
        while yy < h
            invariant
                w == self.width,
                h == self.height,
                0 < w,
                yy <= h,
                measured_where(self, &spanxy, &centerxy, 1, -1, Set::new(|d: int| d < yy)),
            decreases h - yy,
        {
            let ghost done = Set::new(|d: int| d < yy);
            scan_next(self, &mut centerxy, &mut spanxy, 0, yy, 1, -1, Ghost(done));
            proof {
                assert(done.insert(yy as int) =~= Set::new(|d: int| d < yy + 1));
            }
            yy += 1;
        }
        let mut xx: usize = 1;
        while xx < w
            invariant
                w == self.width,
                h == self.height,
                0 < h,
                1 <= xx,
                measured_where(
                    self,
                    &spanxy,
                    &centerxy,
                    1,
                    -1,
                    Set::new(|d: int| d < xx + h - 1),
                ),
            decreases w - xx,
        {
            let ghost done = Set::new(|d: int| d < xx + h - 1);
            scan_next(self, &mut centerxy, &mut spanxy, xx, h - 1, 1, -1, Ghost(done));
            proof {
                assert(done.insert(xx + h - 1) =~= Set::new(|d: int| d < xx + 1 + h - 1));
            }
            xx += 1;
        }
        // the runs along every diagonal that falls to the right, but for
        // the one that is the top right corner alone
        scan_next(self, &mut centeryx, &mut spanyx, 0, 0, 1, 1, Ghost(Set::empty()));
        proof {
            assert(Set::<int>::empty().insert(0) =~= Set::new(
                |d: int| d == 0 || (w - 1 <= d && d <= w - 2),
            ));
        }
        let mut xx: usize = w - 1;
        while xx > 0
            invariant
                w == self.width,
                h == self.height,
                0 < h,
                xx < w,
                measured_where(
                    self,
                    &spanyx,
                    &centeryx,
                    1,
                    1,
                    Set::new(|d: int| d == 0 || (xx <= d && d <= w - 2)),
                ),
            decreases xx,
        {
            let ghost done = Set::new(|d: int| d == 0 || (xx <= d && d <= w - 2));
            xx -= 1;
            scan_next(self, &mut centeryx, &mut spanyx, xx, 0, 1, 1, Ghost(done));
            proof {
                assert(done.insert(xx as int) =~= Set::new(
                    |d: int| d == 0 || (xx <= d && d <= w - 2),
                ));
            }
        }
        let mut yy: usize = 1;
        while yy < h
            invariant
                w == self.width,
                h == self.height,
                0 < w,
                1 <= yy,
                measured_where(
                    self,
                    &spanyx,
                    &centeryx,
                    1,
                    1,
                    Set::new(|d: int| d == 0 || (0 <= d && d <= w - 2) || (-yy < d && d < 0)),
                ),
            decreases h - yy,
        {
            let ghost done = Set::new(
                |d: int| d == 0 || (0 <= d && d <= w - 2) || (-yy < d && d < 0),
            );
            scan_next(self, &mut centeryx, &mut spanyx, 0, yy, 1, 1, Ghost(done));
            proof {
                assert(done.insert(-yy) =~= Set::new(
                    |d: int| d == 0 || (0 <= d && d <= w - 2) || (-(yy + 1) < d && d < 0),
                ));
            }
            yy += 1;
        }
        proof {
            lemma_measured_same(
                self,
                &spanx,
                &centerx,
                1,
                0,
                Set::new(|d: int| d < y),
                lines_scanned(w as int, 1, 0),
            );
            lemma_measured_same(
                self,
                &spany,
                &centery,
                0,
                1,
                Set::new(|d: int| d < x),
                lines_scanned(w as int, 0, 1),
            );
            lemma_measured_same(
                self,
                &spanxy,
                &centerxy,
                1,
                -1,
                Set::new(|d: int| d < w + h - 1),
                lines_scanned(w as int, 1, -1),
            );
            lemma_measured_same(
                self,
                &spanyx,
                &centeryx,
                1,
                1,
                Set::new(|d: int| d == 0 || (0 <= d && d <= w - 2) || (-yy < d && d < 0)),
                lines_scanned(w as int, 1, 1),
            );
        }

        // the middles of the shortest runs
        let mut y: usize = 0;
        while y < h
            invariant
                w == self.width,
                h == self.height,
                0 < w,
                y <= h,
                self.wf(),
                boundary.wf(),
                boundary.width == w,
                boundary.height == h,
                forall|x2: int, y2: int|
                    self.in_bounds(x2, y2) ==> #[trigger] boundary.spec_get(x2, y2)
                        == crate::shape::geometry::is_boundary(self, x2, y2),
                result.wf(),
                result.width == w,
                result.height == h,
                measured(self, &spanx, &centerx, 1, 0),
                measured(self, &spany, &centery, 0, 1),
                measured(self, &spanxy, &centerxy, 1, -1),
                measured(self, &spanyx, &centeryx, 1, 1),
                forall|x2: int, y2: int|
                    self.in_bounds(x2, y2) ==> #[trigger] result.spec_get(x2, y2) == (cell_index(
                        x2,
                        y2,
                        w as int,
                    ) < y * w && thin_at(self, x2, y2)),
            decreases h - y,
        {
            let mut x: usize = 0;
            while x < w
                invariant
                    w == self.width,
                    h == self.height,
                    0 < w,
                    y < h,
                    x <= w,
                    self.wf(),
                    boundary.wf(),
                    boundary.width == w,
                    boundary.height == h,
                    forall|x2: int, y2: int|
                        self.in_bounds(x2, y2) ==> #[trigger] boundary.spec_get(x2, y2)
                            == crate::shape::geometry::is_boundary(self, x2, y2),
                    result.wf(),
                    result.width == w,
                    result.height == h,
                    measured(self, &spanx, &centerx, 1, 0),
                    measured(self, &spany, &centery, 0, 1),
                    measured(self, &spanxy, &centerxy, 1, -1),
                    measured(self, &spanyx, &centeryx, 1, 1),
                    forall|x2: int, y2: int|
                        self.in_bounds(x2, y2) ==> #[trigger] result.spec_get(x2, y2) == (
                        cell_index(x2, y2, w as int) < y * w + x && thin_at(self, x2, y2)),
                decreases w - x,
            {
                proof {
                    self.lemma_in_store(x as int, y as int);
                    centerx.lemma_in_store(x as int, y as int);
                    centery.lemma_in_store(x as int, y as int);
                    centerxy.lemma_in_store(x as int, y as int);
                    centeryx.lemma_in_store(x as int, y as int);
                    boundary.lemma_in_store(x as int, y as int);
                    result.lemma_in_store(x as int, y as int);
                    assert(span_at(&spanx, self, x as int, y as int) == len_at(
                        self,
                        1,
                        0,
                        x as int,
                        y as int,
                    ));
                    assert(span_at(&spany, self, x as int, y as int) == len_at(
                        self,
                        0,
                        1,
                        x as int,
                        y as int,
                    ));
                    assert(span_at(&spanxy, self, x as int, y as int) == len_at(
                        self,
                        1,
                        -1,
                        x as int,
                        y as int,
                    ));
                    assert(span_at(&spanyx, self, x as int, y as int) == len_at(
                        self,
                        1,
                        1,
                        x as int,
                        y as int,
                    ));
                }
                let ghost before = result;
                let u = centerx.get_pixel(x, y);
                let v = centery.get_pixel(x, y);
                let p = centerxy.get_pixel(x, y);
                let q = centeryx.get_pixel(x, y);
                if u || v || p || q {
                    let sx = spanx.get_pixel(x, y);
                    let sy = spany.get_pixel(x, y);
                    let sxy = spanxy.get_pixel(x, y);
                    let syx = spanyx.get_pixel(x, y);
                    let mut on = (u && sx <= sy && sx <= sxy && sx <= syx) || (v && sy < sx && sy
                        <= sxy && sy <= syx) || (p && sxy < sx && sxy < sy && sxy <= syx) || (q
                        && syx < sx && syx < sy && syx < sxy);
                    if on && boundary.get_pixel(x, y) && least(sx, sy, sxy, syx) > 1 {
                        on = false;
                    }
                    proof {
                        assert(on == thin_at(self, x as int, y as int));
                    }
                    if on {
                        result.set_pixel(x, y, true);
                    }
                } else {
                    proof {
                        assert(!thin_at(self, x as int, y as int));
                    }
                }
                proof {
                    assert forall|x2: int, y2: int| self.in_bounds(x2, y2) implies #[trigger] result.spec_get(
                        x2,
                        y2,
                    ) == (cell_index(x2, y2, w as int) < y * w + x + 1 && thin_at(self, x2, y2)) by {
                        assert(before.spec_get(x2, y2) == (cell_index(x2, y2, w as int) < y * w + x
                            && thin_at(self, x2, y2)));
                        if cell_index(x2, y2, w as int) == y * w + x {
                            crate::grid::lemma_cell_index_injective(
                                x2,
                                y2,
                                x as int,
                                y as int,
                                w as int,
                            );
                        }
                    }
                }
                x += 1;
            }
            proof {
                assert(y * w + w == (y + 1) * w) by (nonlinear_arith);
            }
            y += 1;
        }
        proof {
            assert forall|x2: int, y2: int| self.in_bounds(x2, y2) implies #[trigger] result.spec_get(
                x2,
                y2,
            ) == kept_upto(self, 0, x2, y2) by {
                self.lemma_in_store(x2, y2);
                assert(h * w == w * h) by (nonlinear_arith);
            }
        }

        // the widths, and the pixels without a neighbour taken out
        let mut y: usize = 0;
        while y < h
            invariant
                w == self.width,
                h == self.height,
                0 < w,
                w <= u16::MAX,
                h <= u16::MAX,
                y <= h,
                self.wf(),
                result.wf(),
                result.width == w,
                result.height == h,
                measured(self, &spanx, &centerx, 1, 0),
                measured(self, &spany, &centery, 0, 1),
                measured(self, &spanxy, &centerxy, 1, -1),
                measured(self, &spanyx, &centeryx, 1, 1),
                widths@.len() <= y * w,
                widths@ == widths_upto(self, y * w),
                forall|k: int| 0 <= k < widths@.len() ==> #[trigger] widths@[k] >= 1,
                forall|x2: int, y2: int|
                    self.in_bounds(x2, y2) ==> #[trigger] result.spec_get(x2, y2) == kept_upto(
                        self,
                        y * w,
                        x2,
                        y2,
                    ),
            decreases h - y,
        {
            let mut x: usize = 0;
            while x < w
                invariant
                    w == self.width,
                    h == self.height,
                    0 < w,
                    w <= u16::MAX,
                    h <= u16::MAX,
                    y < h,
                    x <= w,
                    self.wf(),
                    result.wf(),
                    result.width == w,
                    result.height == h,
                    measured(self, &spanx, &centerx, 1, 0),
                    measured(self, &spany, &centery, 0, 1),
                    measured(self, &spanxy, &centerxy, 1, -1),
                    measured(self, &spanyx, &centeryx, 1, 1),
                    widths@.len() <= y * w + x,
                    widths@ == widths_upto(self, y * w + x),
                    forall|k: int| 0 <= k < widths@.len() ==> #[trigger] widths@[k] >= 1,
                    forall|x2: int, y2: int|
                        self.in_bounds(x2, y2) ==> #[trigger] result.spec_get(x2, y2) == kept_upto(
                            self,
                            y * w + x,
                            x2,
                            y2,
                        ),
                decreases w - x,
            {
                let ghost n = y * w + x;
                let ghost before = result;
                proof {
                    self.lemma_in_store(x as int, y as int);
                    centerx.lemma_in_store(x as int, y as int);
                    centery.lemma_in_store(x as int, y as int);
                    centerxy.lemma_in_store(x as int, y as int);
                    centeryx.lemma_in_store(x as int, y as int);
                    result.lemma_in_store(x as int, y as int);
                    vstd::arithmetic::div_mod::lemma_fundamental_div_mod_converse(
                        n,
                        w as int,
                        y as int,
                        x as int,
                    );
                    assert(span_at(&spanx, self, x as int, y as int) == len_at(
                        self,
                        1,
                        0,
                        x as int,
                        y as int,
                    ));
                    assert(span_at(&spany, self, x as int, y as int) == len_at(
                        self,
                        0,
                        1,
                        x as int,
                        y as int,
                    ));
                    assert(span_at(&spanxy, self, x as int, y as int) == len_at(
                        self,
                        1,
                        -1,
                        x as int,
                        y as int,
                    ));
                    assert(span_at(&spanyx, self, x as int, y as int) == len_at(
                        self,
                        1,
                        1,
                        x as int,
                        y as int,
                    ));
                }
                if result.get_pixel(x, y) {
                    let xi: i32 = x as i32;
                    let yi: i32 = y as i32;
                    if result.get_pixel_safe(xi - 1, yi) || result.get_pixel_safe(xi + 1, yi)
                        || result.get_pixel_safe(xi, yi - 1) || result.get_pixel_safe(xi, yi + 1)
                        || result.get_pixel_safe(xi - 1, yi - 1) || result.get_pixel_safe(
                        xi - 1,
                        yi + 1,
                    ) || result.get_pixel_safe(xi + 1, yi - 1) || result.get_pixel_safe(
                        xi + 1,
                        yi + 1,
                    ) {
                        proof {
                            assert(has_near(self, n, x as int, y as int));
                        }
                        let sx = spanx.get_pixel(x, y);
                        let sy = spany.get_pixel(x, y);
                        let sxy = spanxy.get_pixel(x, y);
                        let syx = spanyx.get_pixel(x, y);
                        let mut dd: u16 = 0;
                        if centerx.get_pixel(x, y) && sx <= sy && sx <= sxy && sx <= syx {
                            dd = sx;
                        }
                        if centery.get_pixel(x, y) && sy < sx && sy <= sxy && sy <= syx {
                            dd = sy;
                        }
                        if centerxy.get_pixel(x, y) && sxy < sx && sxy < sy && sxy <= syx {
                            dd = sxy;
                        }
                        if centeryx.get_pixel(x, y) && syx < sx && syx < sy && syx < sxy {
                            dd = syx;
                        }
                        proof {
                            assert(dd == spec_width_at(self, x as int, y as int));
                        }
                        if dd > 0 {
                            widths.push(dd);
                        }
                    } else {
                        proof {
                            assert(!has_near(self, n, x as int, y as int));
                        }
                        result.set_pixel(x, y, false);
                    }
                }
                proof {
                    assert(widths@ == widths_upto(self, n + 1));
                    assert forall|x2: int, y2: int| self.in_bounds(x2, y2) implies #[trigger] result.spec_get(
                        x2,
                        y2,
                    ) == kept_upto(self, n + 1, x2, y2) by {
                        assert(before.spec_get(x2, y2) == kept_upto(self, n, x2, y2));
                    }
                }
                x += 1;
            }
            proof {
                assert(y * w + w == (y + 1) * w) by (nonlinear_arith);
            }
            y += 1;
        }
        proof {
            assert(h * w == w * h) by (nonlinear_arith);
            assert forall|x2: int, y2: int|
                self.in_bounds(x2, y2) && #[trigger] result.spec_get(x2, y2) implies self.spec_get(
                x2,
                y2,
            ) by {
                lemma_kept_is_thin(self, w * h, x2, y2);
            }
        }
        Skeleton { image: result, widths }
    }
}

} // verus!
