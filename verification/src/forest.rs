//! Forest visibility: the input is a rectangular grid of digit heights, one
//! row per line. A tree is visible from a direction when every tree strictly
//! between it and that edge is shorter; its scenic score is the product of
//! its four viewing distances, where a view is blocked by the first tree of
//! equal or greater height. The solver counts the visible trees and reports
//! the maximum scenic score with the first coordinate achieving it in
//! row-major order. A ragged grid or a non-digit height is fatal.

use vstd::prelude::*;

use crate::text::{is_digit, puzzle_lines, split_lines, total_len, lemma_puzzle_lines_total_len};
use vstd::arithmetic::mul::lemma_mul_upper_bound;
use vstd::arithmetic::mul::lemma_mul_inequality;

verus! {

/// Lines with trailing blank lines removed: a final newline (or several) does
/// not make a grid ragged.
pub open spec fn strip_blank_tail(lines: Seq<Seq<u8>>) -> Seq<Seq<u8>>
    decreases lines.len(),
{
    if lines.len() > 0 && lines.last().len() == 0 {
        strip_blank_tail(lines.drop_last())
    } else {
        lines
    }
}

/// The grid encoded by a puzzle input: its lines, without trailing blanks.
pub open spec fn grid_of(input: Seq<u8>) -> Seq<Seq<u8>> {
    strip_blank_tail(puzzle_lines(input))
}

/// Width of a grid: the length of its first row.
pub open spec fn grid_width(g: Seq<Seq<u8>>) -> int {
    if g.len() == 0 {
        0
    } else {
        g[0].len() as int
    }
}

/// Every row has the same length.
pub open spec fn grid_rect(g: Seq<Seq<u8>>) -> bool {
    forall|k: int| 0 <= k < g.len() ==> (#[trigger] g[k]).len() == grid_width(g)
}

/// Every cell is a decimal digit.
pub open spec fn grid_digits(g: Seq<Seq<u8>>) -> bool {
    forall|k: int, x: int|
        0 <= k < g.len() && 0 <= x < g[k].len() ==> is_digit(#[trigger] g[k][x])
}

/// Visible from the left edge: everything strictly left of it is shorter.
pub open spec fn vis_left(g: Seq<Seq<u8>>, x: int, y: int) -> bool {
    forall|xx: int| 0 <= xx < x ==> #[trigger] g[y][xx] < g[y][x]
}

/// Visible from the right edge.
pub open spec fn vis_right(g: Seq<Seq<u8>>, x: int, y: int) -> bool {
    forall|xx: int| x < xx < grid_width(g) ==> #[trigger] g[y][xx] < g[y][x]
}

/// Visible from the top edge.
pub open spec fn vis_up(g: Seq<Seq<u8>>, x: int, y: int) -> bool {
    forall|yy: int| 0 <= yy < y ==> #[trigger] g[yy][x] < g[y][x]
}

/// Visible from the bottom edge.
pub open spec fn vis_down(g: Seq<Seq<u8>>, x: int, y: int) -> bool {
    forall|yy: int| y < yy < g.len() ==> #[trigger] g[yy][x] < g[y][x]
}

/// Visible from at least one of the four cardinal directions.
pub open spec fn visible(g: Seq<Seq<u8>>, x: int, y: int) -> bool {
    vis_left(g, x, y) || vis_right(g, x, y) || vis_up(g, x, y) || vis_down(g, x, y)
}

/// Number of visible trees among the first `x` cells of row `y`.
pub open spec fn row_visible_count(g: Seq<Seq<u8>>, y: int, x: int) -> int
    decreases x,
{
    if x <= 0 {
        0
    } else {
        row_visible_count(g, y, x - 1) + if visible(g, x - 1, y) {
            1int
        } else {
            0int
        }
    }
}

/// Number of visible trees in the first `y` rows.
pub open spec fn rows_visible_count(g: Seq<Seq<u8>>, y: int) -> int
    decreases y,
{
    if y <= 0 {
        0
    } else {
        rows_visible_count(g, y - 1) + row_visible_count(g, y - 1, grid_width(g))
    }
}

/// Number of visible trees on the whole grid.
pub open spec fn visible_count(g: Seq<Seq<u8>>) -> int {
    rows_visible_count(g, g.len() as int)
}

/// Viewing distance leftward for a tree of height `h` in row `y`, scanning
/// from column `xx` toward the edge: trees are counted until one of height at
/// least `h` blocks the view.
pub open spec fn dist_left_scan(g: Seq<Seq<u8>>, y: int, h: u8, xx: int) -> int
    decreases xx + 1,
{
    if xx < 0 {
        0
    } else if g[y][xx] >= h {
        1
    } else {
        1 + dist_left_scan(g, y, h, xx - 1)
    }
}

/// Viewing distance rightward, scanning from column `xx` toward the edge.
pub open spec fn dist_right_scan(g: Seq<Seq<u8>>, y: int, h: u8, xx: int) -> int
    decreases grid_width(g) - xx,
{
    if xx < 0 || xx >= grid_width(g) {
        0
    } else if g[y][xx] >= h {
        1
    } else {
        1 + dist_right_scan(g, y, h, xx + 1)
    }
}

/// Viewing distance upward, scanning from row `yy` toward the edge.
pub open spec fn dist_up_scan(g: Seq<Seq<u8>>, x: int, h: u8, yy: int) -> int
    decreases yy + 1,
{
    if yy < 0 {
        0
    } else if g[yy][x] >= h {
        1
    } else {
        1 + dist_up_scan(g, x, h, yy - 1)
    }
}

/// Viewing distance downward, scanning from row `yy` toward the edge.
pub open spec fn dist_down_scan(g: Seq<Seq<u8>>, x: int, h: u8, yy: int) -> int
    decreases g.len() - yy,
{
    if yy < 0 || yy >= g.len() {
        0
    } else if g[yy][x] >= h {
        1
    } else {
        1 + dist_down_scan(g, x, h, yy + 1)
    }
}

/// Scenic score of a tree: the product of its four viewing distances.
pub open spec fn scenic(g: Seq<Seq<u8>>, x: int, y: int) -> int {
    let h = g[y][x];
    dist_left_scan(g, y, h, x - 1) * dist_right_scan(g, y, h, x + 1) * dist_up_scan(
        g,
        x,
        h,
        y - 1,
    ) * dist_down_scan(g, x, h, y + 1)
}

/// Row-major order on coordinates: `(x1, y1)` comes before `(x2, y2)`.
pub open spec fn row_major_before(x1: int, y1: int, x2: int, y2: int) -> bool {
    y1 < y2 || (y1 == y2 && x1 < x2)
}

/// The result of analyzing one forest grid.
#[derive(Clone, Copy, Debug, PartialEq, Eq, Structural)]
pub struct ForestReport {
    /// Number of columns.
    pub width: usize,
    /// Number of rows.
    pub height: usize,
    /// Number of trees visible from at least one direction.
    pub visible: usize,
    /// The greatest scenic score on the grid (zero for an empty grid).
    pub max_scenic: u128,
    /// Column of the first tree achieving the maximum, in row-major order.
    pub best_x: usize,
    /// Row of that tree.
    pub best_y: usize,
}

/// A grid whose geometry or contents are not well defined is fatal.
#[derive(Clone, Copy, Debug, PartialEq, Eq, Structural)]
pub enum ForestError {
    /// Some row has a different length than the first.
    RaggedGrid,
    /// Some cell is not a decimal digit.
    InvalidHeight,
}

/// Everything the analyzer promises of its result.
pub open spec fn forest_post(input: Seq<u8>, r: Result<ForestReport, ForestError>) -> bool {
    let g = grid_of(input);
    &&& (r is Ok <==> grid_rect(g) && grid_digits(g))
    &&& (r == Err::<ForestReport, ForestError>(ForestError::RaggedGrid) <==> !grid_rect(g))
    &&& (r == Err::<ForestReport, ForestError>(ForestError::InvalidHeight) <==> (grid_rect(g)
        && !grid_digits(g)))
    &&& (r matches Ok(rep) ==> {
        &&& rep.width == grid_width(g)
        &&& rep.height == g.len()
        &&& rep.visible == visible_count(g)
        &&& forall|x: int, y: int|
            0 <= y < g.len() && 0 <= x < grid_width(g) ==> #[trigger] scenic(g, x, y)
                <= rep.max_scenic
        &&& (g.len() > 0 ==> {
            &&& rep.best_y < g.len() && rep.best_x < grid_width(g)
            &&& scenic(g, rep.best_x as int, rep.best_y as int) == rep.max_scenic
            &&& forall|x: int, y: int|
                0 <= y < g.len() && 0 <= x < grid_width(g) && row_major_before(
                    x,
                    y,
                    rep.best_x as int,
                    rep.best_y as int,
                ) ==> #[trigger] scenic(g, x, y) < rep.max_scenic
        })
        &&& (g.len() == 0 ==> rep.max_scenic == 0 && rep.best_x == 0 && rep.best_y == 0)
    })
}

/// Law (idempotence): the analyzer's contract pins its result down
/// completely, so re-running it on the same input yields an identical result.
pub proof fn lemma_forest_deterministic(
    input: Seq<u8>,
    r1: Result<ForestReport, ForestError>,
    r2: Result<ForestReport, ForestError>,
)
    requires
        forest_post(input, r1),
        forest_post(input, r2),
    ensures
        r1 == r2,
{
    let g = grid_of(input);
    if r1 is Ok && r2 is Ok {
        let a = r1->Ok_0;
        let b = r2->Ok_0;
        if g.len() > 0 {
            assert(a.max_scenic == b.max_scenic) by {
                assert(scenic(g, a.best_x as int, a.best_y as int) <= b.max_scenic);
                assert(scenic(g, b.best_x as int, b.best_y as int) <= a.max_scenic);
            }
            assert(a.best_x == b.best_x && a.best_y == b.best_y) by {
                if row_major_before(a.best_x as int, a.best_y as int, b.best_x as int,
                    b.best_y as int) {
                    assert(scenic(g, a.best_x as int, a.best_y as int) < b.max_scenic);
                } else if row_major_before(b.best_x as int, b.best_y as int, a.best_x as int,
                    a.best_y as int) {
                    assert(scenic(g, b.best_x as int, b.best_y as int) < a.max_scenic);
                }
            }
        }
    }
}

/// Law: every tree on the grid boundary is visible.
pub proof fn lemma_boundary_visible(g: Seq<Seq<u8>>, x: int, y: int)
    requires
        0 <= y < g.len(),
        0 <= x < grid_width(g),
        x == 0 || y == 0 || x == grid_width(g) - 1 || y == g.len() - 1,
    ensures
        visible(g, x, y),
{
}

/// Law: on a grid with a single row or a single column, every tree has
/// scenic score zero (one direction always has viewing distance zero).
pub proof fn lemma_thin_grid_scenic_zero(g: Seq<Seq<u8>>, x: int, y: int)
    requires
        0 <= y < g.len(),
        0 <= x < grid_width(g),
        g.len() == 1 || grid_width(g) == 1,
    ensures
        scenic(g, x, y) == 0,
{
    let h = g[y][x];
    let dl = dist_left_scan(g, y, h, x - 1);
    let dr = dist_right_scan(g, y, h, x + 1);
    let du = dist_up_scan(g, x, h, y - 1);
    let dd = dist_down_scan(g, x, h, y + 1);
    if g.len() == 1 {
        assert(du == 0);
        assert(dl * dr * du * dd == 0) by (nonlinear_arith)
            requires
                du == 0,
        ;
    } else {
        assert(dl == 0);
        assert(dl * dr * du * dd == 0) by (nonlinear_arith)
            requires
                dl == 0,
        ;
    }
}

/// Law: an analyzed 1-row or 1-column grid reports maximum scenic score zero.
pub proof fn lemma_thin_grid_report(input: Seq<u8>, rep: ForestReport)
    requires
        forest_post(input, Ok(rep)),
        rep.height == 1 || rep.width == 1,
    ensures
        rep.max_scenic == 0,
{
    let g = grid_of(input);
    if g.len() > 0 {
        lemma_thin_grid_scenic_zero(g, rep.best_x as int, rep.best_y as int);
    }
}

/// A viewing distance never exceeds the number of cells scanned.
proof fn lemma_dist_left_bound(g: Seq<Seq<u8>>, y: int, h: u8, xx: int)
    requires
        xx >= -1,
    ensures
        0 <= dist_left_scan(g, y, h, xx) <= xx + 1,
    decreases xx + 1,
{
    if xx >= 0 && !(g[y][xx] >= h) {
        lemma_dist_left_bound(g, y, h, xx - 1);
    }
}

proof fn lemma_dist_right_bound(g: Seq<Seq<u8>>, y: int, h: u8, xx: int)
    requires
        0 <= xx <= grid_width(g),
    ensures
        0 <= dist_right_scan(g, y, h, xx) <= grid_width(g) - xx,
    decreases grid_width(g) - xx,
{
    if 0 <= xx < grid_width(g) && !(g[y][xx] >= h) {
        lemma_dist_right_bound(g, y, h, xx + 1);
    }
}

proof fn lemma_dist_up_bound(g: Seq<Seq<u8>>, x: int, h: u8, yy: int)
    requires
        yy >= -1,
    ensures
        0 <= dist_up_scan(g, x, h, yy) <= yy + 1,
    decreases yy + 1,
{
    if yy >= 0 && !(g[yy][x] >= h) {
        lemma_dist_up_bound(g, x, h, yy - 1);
    }
}

proof fn lemma_dist_down_bound(g: Seq<Seq<u8>>, x: int, h: u8, yy: int)
    requires
        0 <= yy <= g.len(),
    ensures
        0 <= dist_down_scan(g, x, h, yy) <= g.len() - yy,
    decreases g.len() - yy,
{
    if 0 <= yy < g.len() && !(g[yy][x] >= h) {
        lemma_dist_down_bound(g, x, h, yy + 1);
    }
}

/// The scenic score of any cell of a rectangular grid is bounded by the
/// square of the grid's cell count.
proof fn lemma_scenic_bound(g: Seq<Seq<u8>>, x: int, y: int)
    requires
        0 <= y < g.len(),
        0 <= x < grid_width(g),
    ensures
        0 <= scenic(g, x, y) <= (grid_width(g) * g.len()) * (grid_width(g) * g.len()),
{
    let w = grid_width(g);
    let n = g.len() as int;
    let h = g[y][x];
    lemma_dist_left_bound(g, y, h, x - 1);
    lemma_dist_right_bound(g, y, h, x + 1);
    lemma_dist_up_bound(g, x, h, y - 1);
    lemma_dist_down_bound(g, x, h, y + 1);
    let dl = dist_left_scan(g, y, h, x - 1);
    let dr = dist_right_scan(g, y, h, x + 1);
    let du = dist_up_scan(g, x, h, y - 1);
    let dd = dist_down_scan(g, x, h, y + 1);
    assert(dl <= w && dr <= w && du <= n && dd <= n);
    lemma_mul_upper_bound(dl, w, dr, w);
    lemma_mul_upper_bound(du, n, dd, n);
    vstd::arithmetic::mul::lemma_mul_nonnegative(dl, dr);
    vstd::arithmetic::mul::lemma_mul_nonnegative(du, dd);
    lemma_mul_upper_bound(dl * dr, w * w, du * dd, n * n);
    assert((w * w) * (n * n) == (w * n) * (w * n)) by (nonlinear_arith);
    assert(dl * dr * du * dd == (dl * dr) * (du * dd)) by (nonlinear_arith);
    assert(scenic(g, x, y) == dl * dr * du * dd);
    vstd::arithmetic::mul::lemma_mul_nonnegative(dl * dr, du * dd);
}

/// A rectangular grid holds exactly width times height bytes.
proof fn lemma_rect_total_len(g: Seq<Seq<u8>>, w: int)
    requires
        forall|k: int| 0 <= k < g.len() ==> (#[trigger] g[k]).len() == w,
    ensures
        total_len(g) == w * g.len(),
    decreases g.len(),
{
    if g.len() == 0 {
        assert(w * 0 == 0) by (nonlinear_arith);
    } else {
        let head = g.drop_last();
        assert(forall|k: int| 0 <= k < head.len() ==> (#[trigger] head[k]).len() == w);
        lemma_rect_total_len(head, w);
        assert(w * (g.len() - 1) + w == w * g.len()) by (nonlinear_arith);
    }
}

/// Stripping trailing blanks never grows the combined length.
proof fn lemma_strip_total_len(lines: Seq<Seq<u8>>)
    ensures
        total_len(strip_blank_tail(lines)) <= total_len(lines),
        total_len(strip_blank_tail(lines)) >= 0,
    decreases lines.len(),
{
    if lines.len() > 0 && lines.last().len() == 0 {
        lemma_strip_total_len(lines.drop_last());
    } else if lines.len() == 0 {
    } else {
        lemma_strip_total_len_nonneg(lines);
    }
}

proof fn lemma_strip_total_len_nonneg(lines: Seq<Seq<u8>>)
    ensures
        total_len(lines) >= 0,
    decreases lines.len(),
{
    if lines.len() > 0 {
        lemma_strip_total_len_nonneg(lines.drop_last());
    }
}

/// Whether the tree at `(x, y)` is visible from the left.
fn cell_vis_left(rows: &Vec<Vec<u8>>, x: usize, y: usize) -> (b: bool)
    requires
        y < rows@.len(),
        x < rows@[y as int]@.len(),
    ensures
        b == vis_left(rows.deep_view(), x as int, y as int),
{
    let ghost g = rows.deep_view();
    let row = &rows[y];
    proof {
        assert(row@ =~= g[y as int]);
    }
    let h = row[x];
    let mut xx: usize = 0;
    while xx < x
        invariant
            0 <= xx <= x < row@.len(),
            g == rows.deep_view(),
            row@ == g[y as int],
            h == g[y as int][x as int],
            forall|k: int| 0 <= k < xx ==> g[y as int][k] < g[y as int][x as int],
        decreases x - xx,
    {
        if row[xx] >= h {
            proof {
                assert(!vis_left(g, x as int, y as int)) by {
                    if vis_left(g, x as int, y as int) {
                        assert(g[y as int][xx as int] < g[y as int][x as int]);
                    }
                }
            }
            return false;
        }
        xx = xx + 1;
    }
    true
}

/// Whether the tree at `(x, y)` is visible from the right.
fn cell_vis_right(rows: &Vec<Vec<u8>>, x: usize, y: usize) -> (b: bool)
    requires
        grid_rect(rows.deep_view()),
        y < rows@.len(),
        x < rows@[y as int]@.len(),
    ensures
        b == vis_right(rows.deep_view(), x as int, y as int),
{
    let ghost g = rows.deep_view();
    let row = &rows[y];
    proof {
        assert(row@ =~= g[y as int]);
        assert(row@.len() == grid_width(g));
    }
    let w = row.len();
    let h = row[x];
    let mut xx: usize = x + 1;
    while xx < w
        invariant
            x < xx <= w,
            g == rows.deep_view(),
            w == grid_width(g),
            row@ == g[y as int],
            row@.len() == w,
            h == g[y as int][x as int],
            x < row@.len(),
            forall|k: int| x < k < xx ==> g[y as int][k] < g[y as int][x as int],
        decreases w - xx,
    {
        if row[xx] >= h {
            proof {
                assert(!vis_right(g, x as int, y as int)) by {
                    if vis_right(g, x as int, y as int) {
                        assert(g[y as int][xx as int] < g[y as int][x as int]);
                    }
                }
            }
            return false;
        }
        xx = xx + 1;
    }
    true
}

/// Whether the tree at `(x, y)` is visible from the top.
fn cell_vis_up(rows: &Vec<Vec<u8>>, x: usize, y: usize) -> (b: bool)
    requires
        grid_rect(rows.deep_view()),
        y < rows@.len(),
        x < rows@[y as int]@.len(),
    ensures
        b == vis_up(rows.deep_view(), x as int, y as int),
{
    let ghost g = rows.deep_view();
    proof {
        assert(rows@[y as int]@ =~= g[y as int]);
    }
    let h = rows[y][x];
    let mut yy: usize = 0;
    while yy < y
        invariant
            0 <= yy <= y < rows@.len(),
            g == rows.deep_view(),
            grid_rect(g),
            h == g[y as int][x as int],
            x < grid_width(g),
            forall|k: int| 0 <= k < yy ==> g[k][x as int] < g[y as int][x as int],
        decreases y - yy,
    {
        proof {
            assert(rows@[yy as int]@ =~= g[yy as int]);
            assert(g[yy as int].len() == grid_width(g));
        }
        if rows[yy][x] >= h {
            proof {
                assert(!vis_up(g, x as int, y as int)) by {
                    if vis_up(g, x as int, y as int) {
                        assert(g[yy as int][x as int] < g[y as int][x as int]);
                    }
                }
            }
            return false;
        }
        yy = yy + 1;
    }
    true
}

/// Whether the tree at `(x, y)` is visible from the bottom.
fn cell_vis_down(rows: &Vec<Vec<u8>>, x: usize, y: usize) -> (b: bool)
    requires
        grid_rect(rows.deep_view()),
        y < rows@.len(),
        x < rows@[y as int]@.len(),
    ensures
        b == vis_down(rows.deep_view(), x as int, y as int),
{
    let ghost g = rows.deep_view();
    proof {
        assert(rows@[y as int]@ =~= g[y as int]);
    }
    let n = rows.len();
    let h = rows[y][x];
    let mut yy: usize = y + 1;
    while yy < n
        invariant
            y < yy <= n == rows@.len(),
            g == rows.deep_view(),
            grid_rect(g),
            h == g[y as int][x as int],
            x < grid_width(g),
            forall|k: int| y < k < yy ==> g[k][x as int] < g[y as int][x as int],
        decreases n - yy,
    {
        proof {
            assert(rows@[yy as int]@ =~= g[yy as int]);
            assert(g[yy as int].len() == grid_width(g));
        }
        if rows[yy][x] >= h {
            proof {
                assert(!vis_down(g, x as int, y as int)) by {
                    if vis_down(g, x as int, y as int) {
                        assert(g[yy as int][x as int] < g[y as int][x as int]);
                    }
                }
            }
            return false;
        }
        yy = yy + 1;
    }
    true
}

/// Viewing distance of the tree at `(x, y)` looking left.
fn cell_dist_left(rows: &Vec<Vec<u8>>, x: usize, y: usize) -> (d: usize)
    requires
        y < rows@.len(),
        x < rows@[y as int]@.len(),
    ensures
        d == dist_left_scan(
            rows.deep_view(),
            y as int,
            rows.deep_view()[y as int][x as int],
            x as int - 1,
        ),
{
    let ghost g = rows.deep_view();
    let row = &rows[y];
    proof {
        assert(row@ =~= g[y as int]);
    }
    let h = row[x];
    let mut d: usize = 0;
    let mut xx: usize = x;
    while xx > 0
        invariant_except_break
            dist_left_scan(g, y as int, h, x as int - 1) == d + dist_left_scan(
                g,
                y as int,
                h,
                xx as int - 1,
            ),
        invariant
            0 <= xx <= x < row@.len(),
            row@ == g[y as int],
            h == g[y as int][x as int],
            d == x - xx,
        ensures
            d == dist_left_scan(g, y as int, h, x as int - 1),
        decreases xx,
    {
        xx = xx - 1;
        d = d + 1;
        if row[xx] >= h {
            proof {
                assert(dist_left_scan(g, y as int, h, xx as int) == 1);
            }
            break;
        }
        proof {
            assert(dist_left_scan(g, y as int, h, xx as int) == 1 + dist_left_scan(
                g,
                y as int,
                h,
                xx as int - 1,
            ));
        }
    }
    d
}

/// Viewing distance of the tree at `(x, y)` looking right.
fn cell_dist_right(rows: &Vec<Vec<u8>>, x: usize, y: usize) -> (d: usize)
    requires
        grid_rect(rows.deep_view()),
        y < rows@.len(),
        x < rows@[y as int]@.len(),
    ensures
        d == dist_right_scan(
            rows.deep_view(),
            y as int,
            rows.deep_view()[y as int][x as int],
            x as int + 1,
        ),
{
    let ghost g = rows.deep_view();
    let row = &rows[y];
    proof {
        assert(row@ =~= g[y as int]);
        assert(row@.len() == grid_width(g));
    }
    let w = row.len();
    let h = row[x];
    let mut d: usize = 0;
    let mut cur: usize = x + 1;
    while cur < w
        invariant_except_break
            d == cur - (x + 1),
            dist_right_scan(g, y as int, h, x as int + 1) == d + dist_right_scan(
                g,
                y as int,
                h,
                cur as int,
            ),
        invariant
            x + 1 <= cur <= w,
            w == grid_width(g),
            row@ == g[y as int],
            row@.len() == w,
            h == g[y as int][x as int],
            x < row@.len(),
        ensures
            d == dist_right_scan(g, y as int, h, x as int + 1),
        decreases w - cur,
    {
        if row[cur] >= h {
            d = d + 1;
            proof {
                assert(dist_right_scan(g, y as int, h, cur as int) == 1);
            }
            break;
        }
        proof {
            assert(dist_right_scan(g, y as int, h, cur as int) == 1 + dist_right_scan(
                g,
                y as int,
                h,
                cur as int + 1,
            ));
        }
        d = d + 1;
        cur = cur + 1;
    }
    d
}

/// Viewing distance of the tree at `(x, y)` looking up.
fn cell_dist_up(rows: &Vec<Vec<u8>>, x: usize, y: usize) -> (d: usize)
    requires
        grid_rect(rows.deep_view()),
        y < rows@.len(),
        x < rows@[y as int]@.len(),
    ensures
        d == dist_up_scan(
            rows.deep_view(),
            x as int,
            rows.deep_view()[y as int][x as int],
            y as int - 1,
        ),
{
    let ghost g = rows.deep_view();
    proof {
        assert(rows@[y as int]@ =~= g[y as int]);
    }
    let h = rows[y][x];
    let mut d: usize = 0;
    let mut yy: usize = y;
    while yy > 0
        invariant_except_break
            dist_up_scan(g, x as int, h, y as int - 1) == d + dist_up_scan(
                g,
                x as int,
                h,
                yy as int - 1,
            ),
        invariant
            0 <= yy <= y < rows@.len(),
            g == rows.deep_view(),
            grid_rect(g),
            h == g[y as int][x as int],
            x < grid_width(g),
            d == y - yy,
        ensures
            d == dist_up_scan(g, x as int, h, y as int - 1),
        decreases yy,
    {
        yy = yy - 1;
        d = d + 1;
        proof {
            assert(rows@[yy as int]@ =~= g[yy as int]);
            assert(g[yy as int].len() == grid_width(g));
        }
        if rows[yy][x] >= h {
            proof {
                assert(dist_up_scan(g, x as int, h, yy as int) == 1);
            }
            break;
        }
        proof {
            assert(dist_up_scan(g, x as int, h, yy as int) == 1 + dist_up_scan(
                g,
                x as int,
                h,
                yy as int - 1,
            ));
        }
    }
    d
}

/// Viewing distance of the tree at `(x, y)` looking down.
fn cell_dist_down(rows: &Vec<Vec<u8>>, x: usize, y: usize) -> (d: usize)
    requires
        grid_rect(rows.deep_view()),
        y < rows@.len(),
        x < rows@[y as int]@.len(),
    ensures
        d == dist_down_scan(
            rows.deep_view(),
            x as int,
            rows.deep_view()[y as int][x as int],
            y as int + 1,
        ),
{
    let ghost g = rows.deep_view();
    proof {
        assert(rows@[y as int]@ =~= g[y as int]);
    }
    let n = rows.len();
    let h = rows[y][x];
    let mut d: usize = 0;
    let mut cur: usize = y + 1;
    while cur < n
        invariant_except_break
            d == cur - (y + 1),
            dist_down_scan(g, x as int, h, y as int + 1) == d + dist_down_scan(
                g,
                x as int,
                h,
                cur as int,
            ),
        invariant
            y + 1 <= cur <= n == rows@.len(),
            g == rows.deep_view(),
            grid_rect(g),
            h == g[y as int][x as int],
            x < grid_width(g),
        ensures
            d == dist_down_scan(g, x as int, h, y as int + 1),
        decreases n - cur,
    {
        proof {
            assert(rows@[cur as int]@ =~= g[cur as int]);
            assert(g[cur as int].len() == grid_width(g));
        }
        if rows[cur][x] >= h {
            d = d + 1;
            proof {
                assert(dist_down_scan(g, x as int, h, cur as int) == 1);
            }
            break;
        }
        proof {
            assert(dist_down_scan(g, x as int, h, cur as int) == 1 + dist_down_scan(
                g,
                x as int,
                h,
                cur as int + 1,
            ));
        }
        d = d + 1;
        cur = cur + 1;
    }
    d
}

/// Analyze a forest grid: the number of visible trees, the maximum scenic
/// score, and the first coordinate achieving it in row-major order. Fails on
/// a ragged grid or a non-digit height.
pub fn analyze(input: &[u8]) -> (r: Result<ForestReport, ForestError>)
    ensures
        forest_post(input@, r),
{
    let ghost all = puzzle_lines(input@);
    let ghost g = grid_of(input@);
    let mut rows = split_lines(input);
    while rows.len() > 0 && rows[rows.len() - 1].len() == 0
        invariant
            g == grid_of(input@),
            all == puzzle_lines(input@),
            strip_blank_tail(rows.deep_view()) == g,
            total_len(rows.deep_view()) <= total_len(all),
        decreases rows.len(),
    {
        let ghost prev = rows.deep_view();
        proof {
            assert(rows@[rows@.len() - 1]@ =~= prev.last());
            assert(prev.last().len() == 0);
        }
        rows.pop();
        proof {
            assert(rows.deep_view() =~~= prev.drop_last());
            assert(strip_blank_tail(prev) == strip_blank_tail(prev.drop_last()));
            assert(total_len(prev) == total_len(prev.drop_last()) + prev.last().len());
        }
    }
    proof {
        if rows@.len() > 0 {
            assert(rows@[rows@.len() - 1]@ =~= rows.deep_view().last());
        }
        assert(strip_blank_tail(rows.deep_view()) == rows.deep_view());
        assert(rows.deep_view() == g);
    }
    let h = rows.len();
    if h == 0 {
        proof {
            assert(grid_rect(g));
            assert(grid_digits(g));
            assert(visible_count(g) == 0);
        }
        return Ok(ForestReport {
            width: 0,
            height: 0,
            visible: 0,
            max_scenic: 0,
            best_x: 0,
            best_y: 0,
        });
    }
    let w = rows[0].len();
    proof {
        assert(rows@[0]@ =~= g[0]);
        assert(w == grid_width(g));
    }
    // Geometry check: every row must have the first row's length.
    let mut k: usize = 0;
    while k < h
        invariant
            0 <= k <= h,
            g == grid_of(input@),
            rows.deep_view() == g,
            h == g.len(),
            w == grid_width(g),
            forall|j: int| 0 <= j < k ==> (#[trigger] g[j]).len() == w,
        decreases h - k,
    {
        proof {
            assert(rows@[k as int]@ =~= g[k as int]);
        }
        if rows[k].len() != w {
            proof {
                assert(!grid_rect(g));
            }
            return Err(ForestError::RaggedGrid);
        }
        k = k + 1;
    }
    proof {
        assert(grid_rect(g));
    }
    // Content check: every cell must be a digit.
    let mut y: usize = 0;
    while y < h
        invariant
            0 <= y <= h,
            g == grid_of(input@),
            rows.deep_view() == g,
            h == g.len(),
            w == grid_width(g),
            grid_rect(g),
            forall|j: int, x: int| 0 <= j < y && 0 <= x < w ==> is_digit(#[trigger] g[j][x]),
        decreases h - y,
    {
        proof {
            assert(rows@[y as int]@ =~= g[y as int]);
        }
        let row = &rows[y];
        let mut x: usize = 0;
        while x < w
            invariant
                0 <= x <= w,
                g == grid_of(input@),
                grid_rect(g),
                y < g.len(),
                w == grid_width(g),
                row@ == g[y as int],
                row@.len() == w,
                forall|xx: int| 0 <= xx < x ==> is_digit(#[trigger] g[y as int][xx]),
            decreases w - x,
        {
            let b = row[x];
            if b < 48 || b > 57 {
                proof {
                    assert(!is_digit(g[y as int][x as int]));
                    assert(!grid_digits(g));
                }
                return Err(ForestError::InvalidHeight);
            }
            x = x + 1;
        }
        y = y + 1;
    }
    proof {
        assert(grid_digits(g)) by {
            assert(forall|j: int, x: int|
                0 <= j < g.len() && 0 <= x < g[j].len() ==> is_digit(#[trigger] g[j][x]));
        }
        // The grid is rectangular, so its cell count is bounded by the input
        // length; that bounds every scenic score and the visible count.
        lemma_puzzle_lines_total_len(input@);
        lemma_strip_total_len(all);
        lemma_rect_total_len(g, w as int);
    }
    let in_len = input.len();
    proof {
        assert(input@.len() == in_len);
        assert(w * h <= usize::MAX);
    }
    let ghost cells: int = (w as int) * (h as int);
    let mut visible_n: usize = 0;
    let mut maxs: u128 = 0;
    let mut bx: usize = 0;
    let mut by: usize = 0;
    proof {
        // The top-left tree sits on the boundary, so its scenic score is the
        // zero the maximum starts from.
        let h0 = g[0][0];
        let dr = dist_right_scan(g, 0, h0, 1);
        let dd = dist_down_scan(g, 0, h0, 1);
        assert(dist_left_scan(g, 0, h0, -1) == 0);
        assert(0 * dr * dist_up_scan(g, 0, h0, -1) * dd == 0) by (nonlinear_arith);
        assert(scenic(g, 0, 0) == 0);
    }
    let mut y: usize = 0;
    while y < h
        invariant
            0 <= y <= h,
            g == grid_of(input@),
            rows.deep_view() == g,
            h == g.len(),
            w == grid_width(g),
            0 < w,
            grid_rect(g),
            cells == (w as int) * (h as int),
            cells <= usize::MAX,
            visible_n == rows_visible_count(g, y as int),
            visible_n <= y * w,
            bx < w && by < h,
            scenic(g, bx as int, by as int) == maxs,
            row_major_before(bx as int, by as int, 0, y as int) || (bx == 0 && by == 0),
            forall|xx: int, yy: int|
                0 <= yy < y && 0 <= xx < w ==> #[trigger] scenic(g, xx, yy) <= maxs,
            forall|xx: int, yy: int|
                0 <= yy < y && 0 <= xx < w && row_major_before(xx, yy, bx as int, by as int)
                    ==> #[trigger] scenic(g, xx, yy) < maxs,
        decreases h - y,
    {
        let mut x: usize = 0;
        while x < w
            invariant
                0 <= x <= w,
                0 <= y < h,
                g == grid_of(input@),
                rows.deep_view() == g,
                h == g.len(),
                w == grid_width(g),
                0 < w,
                grid_rect(g),
                cells == (w as int) * (h as int),
                cells <= usize::MAX,
                visible_n == rows_visible_count(g, y as int) + row_visible_count(
                    g,
                    y as int,
                    x as int,
                ),
                visible_n <= y * w + x,
                bx < w && by < h,
                scenic(g, bx as int, by as int) == maxs,
                row_major_before(bx as int, by as int, x as int, y as int) || (bx == 0 && by == 0),
                forall|xx: int, yy: int|
                    0 <= yy < h && 0 <= xx < w && row_major_before(xx, yy, x as int, y as int)
                        ==> #[trigger] scenic(g, xx, yy) <= maxs,
                forall|xx: int, yy: int|
                    0 <= yy < h && 0 <= xx < w && row_major_before(xx, yy, bx as int, by as int)
                        ==> #[trigger] scenic(g, xx, yy) < maxs,
            decreases w - x,
        {
            proof {
                assert(rows@[y as int]@ =~= g[y as int]);
                assert(g[y as int].len() == w);
            }
            let vl = cell_vis_left(&rows, x, y);
            let vr = cell_vis_right(&rows, x, y);
            let vu = cell_vis_up(&rows, x, y);
            let vd = cell_vis_down(&rows, x, y);
            if vl || vr || vu || vd {
                proof {
                    assert(y * w + x + 1 <= cells) by {
                        lemma_mul_inequality(y as int + 1, h as int, w as int);
                        assert((y as int + 1) * (w as int) == y * w + w) by (nonlinear_arith);
                        assert((h as int) * (w as int) == (w as int) * (h as int))
                            by (nonlinear_arith);
                    }
                }
                visible_n = visible_n + 1;
            }
            let dl = cell_dist_left(&rows, x, y);
            let dr = cell_dist_right(&rows, x, y);
            let du = cell_dist_up(&rows, x, y);
            let dd = cell_dist_down(&rows, x, y);
            let ghost hgt = g[y as int][x as int];
            proof {
                lemma_scenic_bound(g, x as int, y as int);
                lemma_dist_left_bound(g, y as int, hgt, x as int - 1);
                lemma_dist_right_bound(g, y as int, hgt, x as int + 1);
                lemma_dist_up_bound(g, x as int, hgt, y as int - 1);
                lemma_dist_down_bound(g, x as int, hgt, y as int + 1);
                lemma_mul_upper_bound(dl as int, u64::MAX as int, dr as int, u64::MAX as int);
                lemma_mul_upper_bound(du as int, u64::MAX as int, dd as int, u64::MAX as int);
                lemma_mul_upper_bound(cells, usize::MAX as int, cells, usize::MAX as int);
                lemma_mul_upper_bound(usize::MAX as int, u64::MAX as int, usize::MAX as int,
                    u64::MAX as int);
                assert((dl as int) * (dr as int) * (du as int) * (dd as int) == ((dl as int) * (
                dr as int)) * ((du as int) * (dd as int))) by (nonlinear_arith);
                assert(scenic(g, x as int, y as int) == (dl as int) * (dr as int) * (du as int) * (
                dd as int));
                vstd::arithmetic::mul::lemma_mul_nonnegative(dl as int, dr as int);
                vstd::arithmetic::mul::lemma_mul_nonnegative(du as int, dd as int);
            }
            let p1: u128 = (dl as u128) * (dr as u128);
            let p2: u128 = (du as u128) * (dd as u128);
            let sc: u128 = p1 * p2;
            proof {
                assert(sc == scenic(g, x as int, y as int));
            }
            if sc > maxs {
                maxs = sc;
                bx = x;
                by = y;
            }
            proof {
                assert(row_visible_count(g, y as int, x as int + 1) == row_visible_count(
                    g,
                    y as int,
                    x as int,
                ) + if visible(g, x as int, y as int) {
                    1int
                } else {
                    0int
                });
            }
            x = x + 1;
        }
        proof {
            assert(rows_visible_count(g, y as int + 1) == rows_visible_count(g, y as int)
                + row_visible_count(g, y as int, w as int));
            assert((y + 1) * w == y * w + w) by (nonlinear_arith);
        }
        y = y + 1;
    }
    Ok(ForestReport { width: w, height: h, visible: visible_n, max_scenic: maxs, best_x: bx,
        best_y: by })
}

} // verus!
