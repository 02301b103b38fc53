//! The boundary of the set pixels of a binary image.

use vstd::prelude::*;

use crate::bound::BoundingRect;
use crate::clusters::Cluster;
use crate::clusters::Clusters;
use crate::grid::cell_index;
use crate::grid::lemma_raster_filter_step;
use crate::grid::raster_filter;
use crate::image::BinaryImage;
use crate::point::PointI32;

verus! {

/// A conceptual object represented by an image.
#[derive(Clone)]
pub struct Shape {
    pub image: BinaryImage,
}

/// A boundary pixel is a set pixel with an unset pixel, or the edge of
/// the image, above, below, left or right of it.
pub open spec fn is_boundary(image: &BinaryImage, x: int, y: int) -> bool {
    image.spec_get(x, y) && (!image.spec_get_safe(x - 1, y) || !image.spec_get_safe(x + 1, y)
        || !image.spec_get_safe(x, y - 1) || !image.spec_get_safe(x, y + 1))
}

/// The boundary pixels among the first `n` pixels, row by row.
pub open spec fn boundary_cells(image: &BinaryImage, n: int) -> Seq<(int, int)> {
    raster_filter(image.width as int, n, |x: int, y: int| is_boundary(image, x, y))
}

/// The boundary pixels among the first `n` pixels counted column by
/// column, as `(row, column)` pairs.
pub open spec fn boundary_cells_by_column(image: &BinaryImage, n: int) -> Seq<(int, int)> {
    raster_filter(image.height as int, n, |y: int, x: int| is_boundary(image, x, y))
}

/// The points of some cells.
pub open spec fn points_of(cells: Seq<(int, int)>) -> Seq<PointI32> {
    Seq::new(cells.len(), |k: int| PointI32 { x: cells[k].0 as i32, y: cells[k].1 as i32 })
}

/// The points of some `(row, column)` pairs.
pub open spec fn points_of_swapped(cells: Seq<(int, int)>) -> Seq<PointI32> {
    Seq::new(cells.len(), |k: int| PointI32 { x: cells[k].1 as i32, y: cells[k].0 as i32 })
}

/// Is the cell `(x, y)` of a frame `width` wide and `height` high inside
/// the disc drawn in it? The diameter is the shorter side of the frame and
/// the centre its middle; a cell is inside when its distance from the
/// centre, rounded to the nearest whole number, is less than the diameter
/// halved and rounded up.
pub open spec fn in_disc(width: int, height: int, x: int, y: int) -> bool {
    let d = if width <= height {
        width
    } else {
        height
    };
    let radius = d / 2;
    let limit = radius + d % 2;
    let xx = x - width / 2;
    let yy = y - height / 2;
    &&& -radius <= xx <= radius
    &&& -radius <= yy <= radius
    &&& limit > 0
    &&& 4 * (xx * xx + yy * yy) < (2 * limit - 1) * (2 * limit - 1)
}

/// A cell whose rounded distance is below `limit` is less than `limit`
/// away along each axis.
proof fn lemma_disc_reach(xx: int, yy: int, limit: int)
    requires
        limit > 0,
        4 * (xx * xx + yy * yy) < (2 * limit - 1) * (2 * limit - 1),
    ensures
        -limit < xx < limit,
        -limit < yy < limit,
{
    assert(-limit < xx < limit) by (nonlinear_arith)
        requires
            limit > 0,
            4 * (xx * xx + yy * yy) < (2 * limit - 1) * (2 * limit - 1),
    ;
    assert(-limit < yy < limit) by (nonlinear_arith)
        requires
            limit > 0,
            4 * (xx * xx + yy * yy) < (2 * limit - 1) * (2 * limit - 1),
    ;
}

/// A cluster whose boundary can be listed: its rect is the bounding box
/// of its points and no larger than an image can be.
pub open spec fn scorable(c: Cluster) -> bool {
    &&& c.wf()
    &&& c.rect.spec_width() <= i32::MAX
    &&& c.rect.spec_height() <= i32::MAX
    &&& c.rect.spec_width() * c.rect.spec_height() <= usize::MAX
}

/// The score of one cluster: one, and three for each of its pixels, less
/// two for each of its boundary pixels.
pub open spec fn cluster_score(c: Cluster) -> int {
    1 + 3 * c.points@.len() - 2 * c.boundary_count()
}

/// The score of the first `n` clusters.
pub open spec fn diff_score(clusters: Seq<Cluster>, n: int) -> int
    decreases n,
{
    if n <= 0 {
        0
    } else {
        diff_score(clusters, n - 1) + cluster_score(clusters[n - 1])
    }
}

/// Every cluster adds to the score.
pub proof fn lemma_score_grows(clusters: Seq<Cluster>, k: int, n: int)
    requires
        0 <= k <= n <= clusters.len(),
    ensures
        diff_score(clusters, k) <= diff_score(clusters, n),
    decreases n - k,
{
    if k < n {
        lemma_score_grows(clusters, k, n - 1);
        clusters[n - 1].lemma_boundary_no_longer();
    }
}

/// The rect of a cluster of pixels of an image lies within the image.
pub proof fn lemma_rect_within(c: &Cluster, image: &BinaryImage)
    requires
        c.wf(),
        c.points@.len() > 0,
        c.within(image),
    ensures
        0 <= c.rect.left < c.rect.right <= image.width,
        0 <= c.rect.top < c.rect.bottom <= image.height,
{
    assert forall|k: int| 0 <= k < c.points@.len() implies image.in_bounds(
        (#[trigger] c.points@[k]).x as int,
        c.points@[k].y as int,
    ) by {
        assert(image.spec_get_safe(c.points@[k].x as int, c.points@[k].y as int));
    }
    crate::clusters::lemma_rect_inside(c, image);
}

impl Shape {
    /// Is the pixel at `(x, y)` a boundary pixel?
    fn on_boundary(image: &BinaryImage, x: i32, y: i32) -> (b: bool)
        requires
            image.wf(),
            image.in_bounds(x as int, y as int),
            image.width <= i32::MAX,
            image.height <= i32::MAX,
        ensures
            b == is_boundary(image, x as int, y as int),
    {
        proof {
            image.lemma_in_store(x as int, y as int);
        }
        image.get_pixel(x as usize, y as usize) && (!image.get_pixel_safe(x - 1, y)
            || !image.get_pixel_safe(x + 1, y) || !image.get_pixel_safe(x, y - 1)
            || !image.get_pixel_safe(x, y + 1))
    }

    /// The image of the boundary pixels.
    pub fn image_boundary(image: &BinaryImage) -> (boundary: BinaryImage)
        requires
            image.wf(),
            image.width <= i32::MAX,
            image.height <= i32::MAX,
            image.width * image.height <= u32::MAX,
        ensures
            boundary.wf(),
            boundary.width == image.width,
            boundary.height == image.height,
            forall|x: int, y: int|
                image.in_bounds(x, y) ==> #[trigger] boundary.spec_get(x, y) == is_boundary(
                    image,
                    x,
                    y,
                ),
    {
        Self::image_boundary_and_position_length(image).0
    }

    /// The image of the boundary pixels, the first boundary pixel in
    /// raster order, and the number of boundary pixels.
    pub fn image_boundary_and_position_length(image: &BinaryImage) -> (r: (
        BinaryImage,
        Option<PointI32>,
        u32,
    ))
        requires
            image.wf(),
            image.width <= i32::MAX,
            image.height <= i32::MAX,
            image.width * image.height <= u32::MAX,
        ensures
            r.0.wf(),
            r.0.width == image.width,
            r.0.height == image.height,
            forall|x: int, y: int|
                image.in_bounds(x, y) ==> #[trigger] r.0.spec_get(x, y) == is_boundary(image, x, y),
            r.2 == boundary_cells(image, image.width * image.height).len(),
            r.1 is None <==> r.2 == 0,
            r.1 matches Some(p) ==> (p.x as int, p.y as int) == boundary_cells(
                image,
                image.width * image.height,
            )[0],
    {
        let mut length: u32 = 0;
        let mut boundary = BinaryImage::new_w_h(image.width, image.height);
        let mut first: Option<PointI32> = None;
        let ghost w = image.width as int;
        let ghost f = |x: int, y: int| is_boundary(image, x, y);
        let mut y: usize = 0;
        while y < image.height
            invariant
                y <= image.height,
                image.wf(),
                image.width <= i32::MAX,
                image.height <= i32::MAX,
                image.width * image.height <= u32::MAX,
                w == image.width,
                f == (|x: int, y: int| is_boundary(image, x, y)),
                boundary.wf(),
                boundary.width == image.width,
                boundary.height == image.height,
                length == raster_filter(w, y * w, f).len(),
                length <= y * w,
                first is None <==> length == 0,
                first matches Some(p) ==> (p.x as int, p.y as int) == raster_filter(w, y * w, f)[0],
                forall|x2: int, y2: int|
                    image.in_bounds(x2, y2) ==> #[trigger] boundary.spec_get(x2, y2) == (y2 < y
                        && is_boundary(image, x2, y2)),
            decreases image.height - y,
        {
            let mut x: usize = 0;
            while x < image.width
                invariant
                    x <= image.width,
                    y < image.height,
                    image.wf(),
                    image.width <= i32::MAX,
                    image.height <= i32::MAX,
                    image.width * image.height <= u32::MAX,
                    w == image.width,
                    f == (|x: int, y: int| is_boundary(image, x, y)),
                    boundary.wf(),
                    boundary.width == image.width,
                    boundary.height == image.height,
                    length == raster_filter(w, cell_index(x as int, y as int, w), f).len(),
                    length <= cell_index(x as int, y as int, w),
                    first is None <==> length == 0,
                    first matches Some(p) ==> (p.x as int, p.y as int) == raster_filter(
                        w,
                        cell_index(x as int, y as int, w),
                        f,
                    )[0],
                    forall|x2: int, y2: int|
                        image.in_bounds(x2, y2) ==> #[trigger] boundary.spec_get(x2, y2) == ((y2 < y
                            || (y2 == y && x2 < x)) && is_boundary(image, x2, y2)),
                decreases image.width - x,
            {
                proof {
                    lemma_raster_filter_step(w, x as int, y as int, f);
                    boundary.lemma_in_store(x as int, y as int);
                    crate::grid::lemma_cell_index_bound(x as int, y as int, w, image.height as int);
                }
                if Self::on_boundary(image, x as i32, y as i32) {
                    first = match first {
                        Some(first) => Some(first),
                        None => Some(PointI32 { x: x as i32, y: y as i32 }),
                    };
                    boundary.set_pixel(x, y, true);
                    length += 1;
                }
                x += 1;
            }
            assert(cell_index(w, y as int, w) == (y + 1) * w) by (nonlinear_arith);
            y += 1;
        }
        assert(image.height * w == image.width * image.height) by (nonlinear_arith)
            requires
                w == image.width,
        ;
        (boundary, first, length)
    }

    /// The boundary pixels, row by row.
    pub fn image_boundary_list(image: &BinaryImage) -> (list: Vec<PointI32>)
        requires
            image.wf(),
            image.width <= i32::MAX,
            image.height <= i32::MAX,
        ensures
            list@ == points_of(boundary_cells(image, image.width * image.height)),
    {
        Self::image_boundary_list_transpose(image, false)
    }

    /// The boundary pixels, row by row or, with `transpose`, column by
    /// column.
    pub fn image_boundary_list_transpose(image: &BinaryImage, transpose: bool) -> (list: Vec<
        PointI32,
    >)
        requires
            image.wf(),
            image.width <= i32::MAX,
            image.height <= i32::MAX,
        ensures
            !transpose ==> list@ == points_of(boundary_cells(image, image.width * image.height)),
            transpose ==> list@ == points_of_swapped(
                boundary_cells_by_column(image, image.height * image.width),
            ),
    {
        let mut list: Vec<PointI32> = Vec::new();
        if !transpose {
            let ghost w = image.width as int;
            let ghost f = |x: int, y: int| is_boundary(image, x, y);
            let mut y: usize = 0;
            while y < image.height
                invariant
                    y <= image.height,
                    image.wf(),
                    image.width <= i32::MAX,
                    image.height <= i32::MAX,
                    w == image.width,
                    f == (|x: int, y: int| is_boundary(image, x, y)),
                    list@ == points_of(raster_filter(w, y * w, f)),
                decreases image.height - y,
            {
                let mut x: usize = 0;
                while x < image.width
                    invariant
                        x <= image.width,
                        y < image.height,
                        image.wf(),
                        image.width <= i32::MAX,
                        image.height <= i32::MAX,
                        w == image.width,
                        f == (|x: int, y: int| is_boundary(image, x, y)),
                        list@ == points_of(raster_filter(w, cell_index(x as int, y as int, w), f)),
                    decreases image.width - x,
                {
                    proof {
                        lemma_raster_filter_step(w, x as int, y as int, f);
                    }
                    if Self::on_boundary(image, x as i32, y as i32) {
                        list.push(PointI32 { x: x as i32, y: y as i32 });
                    }
                    assert(list@ =~= points_of(
                        raster_filter(w, cell_index(x as int, y as int, w) + 1, f),
                    ));
                    x += 1;
                }
                assert(cell_index(w, y as int, w) == (y + 1) * w) by (nonlinear_arith);
                y += 1;
            }
            assert(image.height * w == image.width * image.height) by (nonlinear_arith)
                requires
                    w == image.width,
            ;
        } else {
            let ghost h = image.height as int;
            let ghost f = |y: int, x: int| is_boundary(image, x, y);
            let mut x: usize = 0;
            while x < image.width
                invariant
                    x <= image.width,
                    image.wf(),
                    image.width <= i32::MAX,
                    image.height <= i32::MAX,
                    h == image.height,
                    f == (|y: int, x: int| is_boundary(image, x, y)),
                    list@ == points_of_swapped(raster_filter(h, x * h, f)),
                decreases image.width - x,
            {
                let mut y: usize = 0;
                while y < image.height
                    invariant
                        y <= image.height,
                        x < image.width,
                        image.wf(),
                        image.width <= i32::MAX,
                        image.height <= i32::MAX,
                        h == image.height,
                        f == (|y: int, x: int| is_boundary(image, x, y)),
                        list@ == points_of_swapped(
                            raster_filter(h, cell_index(y as int, x as int, h), f),
                        ),
                    decreases image.height - y,
                {
                    proof {
                        lemma_raster_filter_step(h, y as int, x as int, f);
                    }
                    if Self::on_boundary(image, x as i32, y as i32) {
                        list.push(PointI32 { x: x as i32, y: y as i32 });
                    }
                    assert(list@ =~= points_of_swapped(
                        raster_filter(h, cell_index(y as int, x as int, h) + 1, f),
                    ));
                    y += 1;
                }
                assert(cell_index(h, x as int, h) == (x + 1) * h) by (nonlinear_arith);
                x += 1;
            }
            assert(image.width * h == image.height * image.width) by (nonlinear_arith)
                requires
                    h == image.height,
            ;
        }
        list
    }

    /// The rect of the whole image.
    pub fn rect(&self) -> (r: BoundingRect)
        requires
            self.image.width <= i32::MAX,
            self.image.height <= i32::MAX,
        ensures
            r.left == 0,
            r.top == 0,
            r.right == self.image.width,
            r.bottom == self.image.height,
    {
        BoundingRect {
            left: 0,
            top: 0,
            right: self.image.width as i32,
            bottom: self.image.height as i32,
        }
    }

    /// A disc in a frame `width` wide and `height` high: its diameter is
    /// the shorter side, its centre the middle of the frame.
    pub fn circle(width: usize, height: usize) -> (shape: Self)
        requires
            width <= i32::MAX,
            height <= i32::MAX,
            width * height <= usize::MAX,
        ensures
            shape.image.wf(),
            shape.image.width == width,
            shape.image.height == height,
            forall|x: int, y: int|
                shape.image.in_bounds(x, y) ==> #[trigger] shape.image.spec_get(x, y) == in_disc(
                    width as int,
                    height as int,
                    x,
                    y,
                ),
    {
        let diameter: i64 = if width <= height {
            width as i64
        } else {
            height as i64
        };
        let radius: i64 = diameter / 2;
        let limit: i64 = radius + diameter % 2;
        let cx: i64 = width as i64 / 2;
        let cy: i64 = height as i64 / 2;
        let mut image = BinaryImage::new_w_h(width, height);
        let ghost w = width as int;
        let ghost h = height as int;
        let mut yy: i64 = -radius;
        while yy <= radius
            invariant
                image.wf(),
                image.width == width,
                image.height == height,
                w == width,
                h == height,
                width <= i32::MAX,
                height <= i32::MAX,
                0 <= diameter <= i32::MAX,
                diameter == (if w <= h {
                    w
                } else {
                    h
                }),
                radius == diameter / 2,
                limit == radius + diameter % 2,
                cx == w / 2,
                cy == h / 2,
                -radius <= yy <= radius + 1,
                forall|x: int, y: int|
                    image.in_bounds(x, y) ==> #[trigger] image.spec_get(x, y) == (in_disc(w, h, x, y)
                        && y - cy < yy),
            decreases radius + 1 - yy,
        {
            let mut xx: i64 = -radius;
            while xx <= radius
                invariant
                    image.wf(),
                    image.width == width,
                    image.height == height,
                    w == width,
                    h == height,
                    width <= i32::MAX,
                    height <= i32::MAX,
                    0 <= diameter <= i32::MAX,
                    diameter == (if w <= h {
                        w
                    } else {
                        h
                    }),
                    radius == diameter / 2,
                    limit == radius + diameter % 2,
                    cx == w / 2,
                    cy == h / 2,
                    -radius <= yy <= radius,
                    -radius <= xx <= radius + 1,
                    forall|x: int, y: int|
                        image.in_bounds(x, y) ==> #[trigger] image.spec_get(x, y) == (in_disc(
                            w,
                            h,
                            x,
                            y,
                        ) && (y - cy < yy || (y - cy == yy && x - cx < xx))),
                decreases radius + 1 - xx,
            {
                assert(0 <= xx * xx <= 0x4000_0000_0000_0000 && 0 <= yy * yy
                    <= 0x4000_0000_0000_0000) by (nonlinear_arith)
                    requires
                        -0x8000_0000 <= xx <= 0x8000_0000,
                        -0x8000_0000 <= yy <= 0x8000_0000,
                ;
                let n: i128 = (xx as i128) * (xx as i128) + (yy as i128) * (yy as i128);
                let m: i128 = 2 * (limit as i128) - 1;
                assert(0 <= m * m <= 0x1_0000_0000_0000_0000) by (nonlinear_arith)
                    requires
                        -1 <= m <= 0x1_0000_0000,
                ;
                if limit > 0 && 4 * n < m * m {
                    proof {
                        lemma_disc_reach(xx as int, yy as int, limit as int);
                    }
                    let px: usize = (cx + xx) as usize;
                    let py: usize = (cy + yy) as usize;
                    proof {
                        image.lemma_in_store(px as int, py as int);
                    }
                    image.set_pixel(px, py, true);
                }
                xx += 1;
            }
            yy += 1;
        }
        Self { image }
    }

    /// Scores how far an image of differences is from blank, cluster by
    /// cluster, and tells whether the score stays within `threshold`. The
    /// clusters are those of the set pixels, joined along the four
    /// directions.
    pub fn clustered_diff(diff: &BinaryImage, threshold: usize) -> (ok: bool)
        requires
            crate::clusters::labelling_fits(diff),
        ensures
            exists|c: Clusters|
                c.is_labelling_of(diff, false) && ok == (diff_score(
                    c.clusters@,
                    c.clusters@.len() as int,
                ) <= threshold),
    {
        let clusters = diff.to_clusters(false);
        proof {
            assert forall|k: int| 0 <= k < clusters.clusters@.len() implies scorable(
                #[trigger] clusters.clusters@[k],
            ) by {
                lemma_rect_within(&clusters.clusters@[k], diff);
                let c = clusters.clusters@[k];
                assert(c.rect.spec_width() * c.rect.spec_height() <= diff.width * diff.height)
                    by (nonlinear_arith)
                    requires
                        0 <= c.rect.spec_width() <= diff.width,
                        0 <= c.rect.spec_height() <= diff.height,
                ;
            }
        }
        proof {
            assert(clusters.is_labelling_of(diff, false));
        }
        Self::score_within(&clusters, threshold)
    }

    /// Tells whether the score of the clusters stays within `threshold`.
    pub fn score_within(clusters: &Clusters, threshold: usize) -> (ok: bool)
        requires
            forall|k: int| 0 <= k < clusters.clusters@.len() ==> scorable(#[trigger] clusters.clusters@[k]),
        ensures
            ok == (diff_score(clusters.clusters@, clusters.clusters@.len() as int) <= threshold),
    {
        let n = clusters.len();
        let mut sum: u128 = 0;
        let mut i: usize = 0;
        while i < n
            invariant
                n == clusters.clusters@.len(),
                i <= n,
                forall|k: int|
                    0 <= k < clusters.clusters@.len() ==> scorable(#[trigger] clusters.clusters@[k]),
                sum == diff_score(clusters.clusters@, i as int),
                sum <= threshold,
            decreases n - i,
        {
            let cluster = clusters.get_cluster(i);
            assert(scorable(clusters.clusters@[i as int]));
            let size = cluster.size();
            let boundary = cluster.boundary();
            let b = boundary.len();
            proof {
                cluster.lemma_boundary_no_longer();
            }
            let term: u128 = 1 + 3 * (size as u128) - 2 * (b as u128);
            sum = sum + term;
            if sum > threshold as u128 {
                proof {
                    lemma_score_grows(clusters.clusters@, i + 1, n as int);
                }
                return false;
            }
            i += 1;
        }
        true
    }
}

} // verus!
