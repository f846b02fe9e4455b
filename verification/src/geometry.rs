//! Flat shapes drawn into a buffer of known row width: a filled box, a
//! bordered rectangle and a circle outline. Each stops with a report at the
//! first pixel that misses the buffer.

use crate::report::PixelOutOfBounds;
use crate::line::{span, toward};
use crate::segment::{draw_segment, fits_segment, follows_tracer, segment_points};
use crate::frame::paint;
use crate::trace::{
    continue_points, lemma_stroke_concat, lemma_stroke_nothing, lemma_stroke_outcome,
    lemma_stroke_stuck, points_of, stroke, stroke_outcome,
};
use vstd::prelude::*;

verus! {

/// Draws shapes into buffers whose rows are `window_width` cells wide.
pub struct GeometryDrawer {
    window_width: usize,
}

/// The four border lines at depth `i` of the rectangle between `(sx, sy)`
/// and `(ex, ey)`: left, right, top, bottom, each traced from its low end
/// towards its high end.
pub open spec fn ring_points(sx: int, sy: int, ex: int, ey: int, i: int) -> Seq<(int, int)> {
    segment_points(sx + i, sy, sx + i, ey) + segment_points(ex - i - 1, sy, ex - i - 1, ey)
        + segment_points(sx, sy + i, ex, sy + i) + segment_points(sx, ey - i - 1, ex, ey - i - 1)
}

/// The points of a rectangle border `thickness` deep, in drawing order: the
/// rings from the outermost inwards.
pub open spec fn rectangle_points(sx: int, sy: int, ex: int, ey: int, thickness: nat) -> Seq<
    (int, int),
>
    decreases thickness,
{
    if thickness == 0 {
        Seq::empty()
    } else {
        rectangle_points(sx, sy, ex, ey, (thickness - 1) as nat) + ring_points(
            sx,
            sy,
            ex,
            ey,
            thickness - 1,
        )
    }
}

/// `v` lies between `from` and `to`, `from` with it and `to` without.
pub open spec fn from_until(from: int, to: int, v: int) -> bool {
    from <= v < to || to < v <= from
}

/// The four border lines at depth `i` are as the tracer is known to yield
/// them: see `follows_tracer`.
pub open spec fn ring_traced(sx: int, sy: int, ex: int, ey: int, i: int) -> bool {
    &&& follows_tracer(sx + i, sy, sx + i, ey, segment_points(sx + i, sy, sx + i, ey))
    &&& follows_tracer(
        ex - i - 1,
        sy,
        ex - i - 1,
        ey,
        segment_points(ex - i - 1, sy, ex - i - 1, ey),
    )
    &&& follows_tracer(sx, sy + i, ex, sy + i, segment_points(sx, sy + i, ex, sy + i))
    &&& follows_tracer(
        sx,
        ey - i - 1,
        ex,
        ey - i - 1,
        segment_points(sx, ey - i - 1, ex, ey - i - 1),
    )
}

/// The cells of the four border lines at depth `i`: two columns and two
/// rows, each from its start up to, but not with, its end.
pub open spec fn ring_cells(sx: int, sy: int, ex: int, ey: int, i: int) -> Set<(int, int)> {
    Set::new(
        |p: (int, int)|
            ((p.0 == sx + i || p.0 == ex - i - 1) && from_until(sy, ey, p.1)) || ((p.1 == sy + i
                || p.1 == ey - i - 1) && from_until(sx, ex, p.0)),
    )
}

/// The cells of a border `thickness` deep.
pub open spec fn border_cells(sx: int, sy: int, ex: int, ey: int, thickness: nat) -> Set<
    (int, int),
> {
    Set::new(
        |p: (int, int)|
            exists|i: int| 0 <= i < thickness && #[trigger] ring_cells(sx, sy, ex, ey, i).contains(p),
    )
}

/// A traced upright segment holds the cells of its column from its start up
/// to, but not with, its end.
pub proof fn lemma_upright_cells(x: int, y0: int, y1: int, pts: Seq<(int, int)>, p: (int, int))
    requires
        follows_tracer(x, y0, x, y1, pts),
    ensures
        pts.contains(p) <==> p.0 == x && from_until(y0, y1, p.1),
{
    if pts.contains(p) {
        let k = choose|k: int| 0 <= k < pts.len() && pts[k] == p;
        assert(pts[k] == (x, toward(y0, y1, k)));
    }
    if p.0 == x && from_until(y0, y1, p.1) {
        let k = span(y0, p.1);
        assert(pts[k] == (x, toward(y0, y1, k)));
    }
}

/// A traced level segment holds the cells of its row from its start up to,
/// but not with, its end.
pub proof fn lemma_level_cells(x0: int, x1: int, y: int, pts: Seq<(int, int)>, p: (int, int))
    requires
        follows_tracer(x0, y, x1, y, pts),
    ensures
        pts.contains(p) <==> p.1 == y && from_until(x0, x1, p.0),
{
    if pts.contains(p) {
        let k = choose|k: int| 0 <= k < pts.len() && pts[k] == p;
        assert(pts[k] == (toward(x0, x1, k), y));
    }
    if p.1 == y && from_until(x0, x1, p.0) {
        let k = span(x0, p.0);
        assert(pts[k] == (toward(x0, x1, k), y));
    }
}

/// A point is in two sequences in a row when it is in one of them.
proof fn lemma_concat_contains(a: Seq<(int, int)>, b: Seq<(int, int)>, p: (int, int))
    ensures
        (a + b).contains(p) <==> a.contains(p) || b.contains(p),
{
    let both = a + b;
    if both.contains(p) {
        let k = choose|k: int| 0 <= k < both.len() && both[k] == p;
        if k < a.len() {
            assert(a[k] == p);
        } else {
            assert(b[k - a.len()] == p);
        }
    }
    if a.contains(p) {
        let k = choose|k: int| 0 <= k < a.len() && a[k] == p;
        assert(both[k] == p);
    }
    if b.contains(p) {
        let k = choose|k: int| 0 <= k < b.len() && b[k] == p;
        assert(both[k + a.len()] == p);
    }
}

/// The points of a traced border are the cells of the border.
pub proof fn lemma_border_cells(
    sx: int,
    sy: int,
    ex: int,
    ey: int,
    thickness: nat,
    p: (int, int),
)
    requires
        forall|i: int| 0 <= i < thickness ==> #[trigger] ring_traced(sx, sy, ex, ey, i),
    ensures
        rectangle_points(sx, sy, ex, ey, thickness).contains(p) <==> border_cells(
            sx,
            sy,
            ex,
            ey,
            thickness,
        ).contains(p),
    decreases thickness,
{
    if thickness > 0 {
        let i = thickness - 1;
        let inner = rectangle_points(sx, sy, ex, ey, i as nat);
        let left = segment_points(sx + i, sy, sx + i, ey);
        let right = segment_points(ex - i - 1, sy, ex - i - 1, ey);
        let top = segment_points(sx, sy + i, ex, sy + i);
        let bottom = segment_points(sx, ey - i - 1, ex, ey - i - 1);
        assert(ring_traced(sx, sy, ex, ey, i));
        lemma_border_cells(sx, sy, ex, ey, i as nat, p);
        lemma_upright_cells(sx + i, sy, ey, left, p);
        lemma_upright_cells(ex - i - 1, sy, ey, right, p);
        lemma_level_cells(sx, ex, sy + i, top, p);
        lemma_level_cells(sx, ex, ey - i - 1, bottom, p);
        lemma_concat_contains(left, right, p);
        lemma_concat_contains(left + right, top, p);
        lemma_concat_contains(left + right + top, bottom, p);
        lemma_concat_contains(inner, ring_points(sx, sy, ex, ey, i), p);
        assert(ring_points(sx, sy, ex, ey, i).contains(p) <==> ring_cells(sx, sy, ex, ey, i).contains(
            p,
        ));
        if border_cells(sx, sy, ex, ey, thickness).contains(p) {
            let j = choose|j: int|
                0 <= j < thickness && #[trigger] ring_cells(sx, sy, ex, ey, j).contains(p);
            if j < i {
                assert(border_cells(sx, sy, ex, ey, i as nat).contains(p));
            }
        }
        if border_cells(sx, sy, ex, ey, i as nat).contains(p) {
            let j = choose|j: int| 0 <= j < i && #[trigger] ring_cells(sx, sy, ex, ey, j).contains(p);
            assert(ring_cells(sx, sy, ex, ey, j).contains(p));
        }
    }
}

/// A border that was drawn without a report has painted exactly its cells.
pub proof fn lemma_border_filled(
    buf: Seq<u32>,
    sx: int,
    sy: int,
    ex: int,
    ey: int,
    thickness: nat,
    width: int,
    color: u32,
)
    requires
        forall|i: int| 0 <= i < thickness ==> #[trigger] ring_traced(sx, sy, ex, ey, i),
        stroke_outcome(rectangle_points(sx, sy, ex, ey, thickness), width, buf.len() as int) is Ok,
    ensures
        stroke(buf, rectangle_points(sx, sy, ex, ey, thickness), width, color) == paint(
            buf,
            width,
            buf.len() as int,
            color,
            border_cells(sx, sy, ex, ey, thickness),
        ),
{
    let pts = rectangle_points(sx, sy, ex, ey, thickness);
    lemma_stroke_outcome(buf, pts, width, color);
    assert forall|p: (int, int)| pts.to_set().contains(p) == border_cells(
        sx,
        sy,
        ex,
        ey,
        thickness,
    ).contains(p) by {
        lemma_border_cells(sx, sy, ex, ey, thickness, p);
    }
    assert(pts.to_set() =~= border_cells(sx, sy, ex, ey, thickness));
}

/// A thinner border is drawn first: its points open the thicker one.
pub proof fn lemma_rectangle_grows(sx: int, sy: int, ex: int, ey: int, thin: nat, thick: nat)
    requires
        thin <= thick,
    ensures
        rectangle_points(sx, sy, ex, ey, thin).len() <= rectangle_points(sx, sy, ex, ey, thick).len(),
        rectangle_points(sx, sy, ex, ey, thick).take(
            rectangle_points(sx, sy, ex, ey, thin).len() as int,
        ) == rectangle_points(sx, sy, ex, ey, thin),
    decreases thick,
{
    let short = rectangle_points(sx, sy, ex, ey, thin);
    let long = rectangle_points(sx, sy, ex, ey, thick);
    if thin == thick {
        assert(long.take(short.len() as int) =~= short);
    } else {
        lemma_rectangle_grows(sx, sy, ex, ey, thin, (thick - 1) as nat);
        let mid = rectangle_points(sx, sy, ex, ey, (thick - 1) as nat);
        assert(long.take(short.len() as int) =~= mid.take(short.len() as int));
    }
}

/// The points of column `x` from row `y0` up to, but not with, row `y1`.
pub open spec fn column_points(x: int, y0: int, y1: int) -> Seq<(int, int)> {
    Seq::new((if y1 > y0 { y1 - y0 } else { 0 }) as nat, |j: int| (x, y0 + j))
}

/// The points of the box between `(sx, sy)` and `(ex, ey)`, the low sides
/// with it and the high sides without, in drawing order: column by column,
/// each from its low end.
pub open spec fn box_points(sx: int, sy: int, ex: int, ey: int) -> Seq<(int, int)>
    decreases ex - sx,
{
    if ex <= sx {
        Seq::empty()
    } else {
        box_points(sx, sy, ex - 1, ey) + column_points(ex - 1, sy, ey)
    }
}

/// A narrower box is drawn first: its points open the wider one.
pub proof fn lemma_box_grows(sx: int, sy: int, mid: int, ex: int, ey: int)
    requires
        mid <= ex,
    ensures
        box_points(sx, sy, mid, ey).len() <= box_points(sx, sy, ex, ey).len(),
        box_points(sx, sy, ex, ey).take(box_points(sx, sy, mid, ey).len() as int) == box_points(
            sx,
            sy,
            mid,
            ey,
        ),
    decreases ex - mid,
{
    let short = box_points(sx, sy, mid, ey);
    let long = box_points(sx, sy, ex, ey);
    if mid == ex || ex <= sx {
        assert(long.take(short.len() as int) =~= short);
    } else {
        lemma_box_grows(sx, sy, mid, ex - 1, ey);
        let before_last = box_points(sx, sy, ex - 1, ey);
        assert(long.take(short.len() as int) =~= before_last.take(short.len() as int));
    }
}

/// The box holds the points between its corners and no other, and as many
/// points as it has cells.
pub proof fn lemma_box_points(sx: int, sy: int, ex: int, ey: int)
    ensures
        forall|x: int, y: int| #[trigger]
            box_points(sx, sy, ex, ey).contains((x, y)) <==> sx <= x < ex && sy <= y < ey,
        box_points(sx, sy, ex, ey).len() == if ex > sx && ey > sy {
            (ex - sx) * (ey - sy)
        } else {
            0
        },
    decreases ex - sx,
{
    let whole = box_points(sx, sy, ex, ey);
    if ex > sx {
        let rest = box_points(sx, sy, ex - 1, ey);
        let last = column_points(ex - 1, sy, ey);
        lemma_box_points(sx, sy, ex - 1, ey);
        assert forall|x: int, y: int| #[trigger]
            whole.contains((x, y)) <==> sx <= x < ex && sy <= y < ey by {
            if whole.contains((x, y)) {
                let k = choose|k: int| 0 <= k < whole.len() && whole[k] == (x, y);
                if k < rest.len() {
                    assert(rest[k] == (x, y));
                    assert(rest.contains((x, y)));
                } else {
                    assert(last[k - rest.len()] == (x, y));
                }
            }
            if sx <= x < ex && sy <= y < ey {
                if x < ex - 1 {
                    assert(rest.contains((x, y)));
                    let k = choose|k: int| 0 <= k < rest.len() && rest[k] == (x, y);
                    assert(whole[k] == (x, y));
                } else {
                    assert(last[y - sy] == (x, y));
                    assert(whole[rest.len() + (y - sy)] == (x, y));
                }
            }
        }
        assert(whole.len() == rest.len() + last.len());
        if ey > sy {
            let (w, h) = (ex - sx, ey - sy);
            assert(w * h == (w - 1) * h + h) by (nonlinear_arith);
            assert(w == 1 ==> (w - 1) * h == 0) by (nonlinear_arith);
            assert(last.len() == h);
        }
    }
}

/// The cells between the corners `(sx, sy)` and `(ex, ey)`, the low sides
/// with it and the high sides without.
pub open spec fn box_cells(sx: int, sy: int, ex: int, ey: int) -> Set<(int, int)> {
    Set::new(|p: (int, int)| sx <= p.0 < ex && sy <= p.1 < ey)
}

/// A box that was drawn without a report has painted exactly its cells.
pub proof fn lemma_box_filled(
    buf: Seq<u32>,
    sx: int,
    sy: int,
    ex: int,
    ey: int,
    width: int,
    color: u32,
)
    requires
        stroke_outcome(box_points(sx, sy, ex, ey), width, buf.len() as int) is Ok,
    ensures
        stroke(buf, box_points(sx, sy, ex, ey), width, color) == paint(
            buf,
            width,
            buf.len() as int,
            color,
            box_cells(sx, sy, ex, ey),
        ),
{
    let pts = box_points(sx, sy, ex, ey);
    lemma_stroke_outcome(buf, pts, width, color);
    lemma_box_points(sx, sy, ex, ey);
    assert forall|p: (int, int)| pts.to_set().contains(p) == box_cells(sx, sy, ex, ey).contains(
        p,
    ) by {
        assert(pts.contains((p.0, p.1)) <==> sx <= p.0 < ex && sy <= p.1 < ey);
    }
    assert(pts.to_set() =~= box_cells(sx, sy, ex, ey));
}

/// The eight mirror images of the offset `(x, y)` about the centre
/// `(cx, cy)`, in drawing order.
pub open spec fn octants(cx: int, cy: int, x: int, y: int) -> Seq<(int, int)> {
    seq![
        (cx + x, cy + y),
        (cx - x, cy + y),
        (cx + x, cy - y),
        (cx - x, cy - y),
        (cx + y, cy + x),
        (cx - y, cy + x),
        (cx + y, cy - x),
        (cx - y, cy - x),
    ]
}

/// How far the offset `(x, y)` lies outside the circle of radius `r`, as the
/// outline tracer measures it: positive when the next column must come one
/// row closer to the centre.
pub open spec fn rim_excess(r: int, x: int, y: int) -> int {
    2 * (x * x + y * y - r * r) + 8 * x - 6 * y + 4 * r + 3
}

/// The points of the outline from the column after `x` on, where the rim is
/// at height `y` in column `x`: one column at a time, its eight mirror
/// images, until the column passes the height.
pub open spec fn outline_from(cx: int, cy: int, r: int, x: int, y: int) -> Seq<(int, int)>
    decreases y - x + 2,
{
    if y >= x {
        let lower = if rim_excess(r, x, y) > 0 {
            y - 1
        } else {
            y
        };
        octants(cx, cy, x + 1, lower) + outline_from(cx, cy, r, x + 1, lower)
    } else {
        Seq::empty()
    }
}

/// The points of the circle outline of radius `r` about `(cx, cy)`, in
/// drawing order.
pub open spec fn circle_outline(cx: int, cy: int, r: int) -> Seq<(int, int)> {
    outline_from(cx, cy, r, 0, r)
}

/// Draws one more segment after the points of `done`, all of which were drawn.
fn continue_segment(
    buffer: &mut [u32],
    x0: isize,
    y0: isize,
    x1: isize,
    y1: isize,
    color: u32,
    window_width: usize,
    Ghost(before): Ghost<Seq<u32>>,
    Ghost(done): Ghost<Seq<(int, int)>>,
) -> (r: Result<(), PixelOutOfBounds>)
    requires
        fits_segment(x0 as int, y0 as int, x1 as int, y1 as int),
        old(buffer)@ == stroke(before, done, window_width as int, color),
        stroke_outcome(done, window_width as int, before.len() as int) is Ok,
    ensures
        final(buffer)@ == stroke(
            before,
            done + segment_points(x0 as int, y0 as int, x1 as int, y1 as int),
            window_width as int,
            color,
        ),
        r == stroke_outcome(
            done + segment_points(x0 as int, y0 as int, x1 as int, y1 as int),
            window_width as int,
            before.len() as int,
        ),
        follows_tracer(
            x0 as int,
            y0 as int,
            x1 as int,
            y1 as int,
            segment_points(x0 as int, y0 as int, x1 as int, y1 as int),
        ),
{
    proof {
        lemma_stroke_concat(
            before,
            done,
            segment_points(x0 as int, y0 as int, x1 as int, y1 as int),
            window_width as int,
            color,
        );
    }
    draw_segment(buffer, x0, y0, x1, y1, color, window_width)
}

impl GeometryDrawer {
    /// The row width that this drawer was made with.
    pub closed spec fn row_width(&self) -> int {
        self.window_width as int
    }

    /// A drawer for buffers whose rows are `window_width` cells wide.
    pub fn new(window_width: usize) -> (drawer: Self)
        ensures
            drawer.row_width() == window_width,
    {
        Self { window_width }
    }

    /// Fills the box between `(start_x, start_y)` and `(end_x, end_y)`, the
    /// low sides with it and the high sides without, column by column, and
    /// stops with a report at the first point outside the buffer.
    #[verifier::loop_isolation(false)]
    pub fn draw_box(
        &self,
        buffer: &mut [u32],
        start_x: usize,
        start_y: usize,
        end_x: usize,
        end_y: usize,
        color: u32,
    ) -> (r: Result<(), PixelOutOfBounds>)
        ensures
            final(buffer)@ == stroke(
                old(buffer)@,
                box_points(start_x as int, start_y as int, end_x as int, end_y as int),
                self.row_width(),
                color,
            ),
            r == stroke_outcome(
                box_points(start_x as int, start_y as int, end_x as int, end_y as int),
                self.row_width(),
                old(buffer)@.len() as int,
            ),
    {
        let ghost before = buffer@;
        let ghost (sx, sy, ex, ey) = (start_x as int, start_y as int, end_x as int, end_y as int);
        let ghost whole = box_points(sx, sy, ex, ey);
        let width = self.window_width;
        proof {
            lemma_stroke_nothing(before, width as int, color);
        }
        let mut i: usize = start_x;
        while i < end_x
            invariant
                start_x <= i,
                i <= end_x || i == start_x,
                buffer@ == stroke(before, box_points(sx, sy, i as int, ey), width as int, color),
                stroke_outcome(box_points(sx, sy, i as int, ey), width as int, before.len() as int)
                    is Ok,
            decreases end_x - i,
        {
            let ghost left = box_points(sx, sy, i as int, ey);
            let mut j: usize = start_y;
            proof {
                assert(left + column_points(i as int, sy, sy) =~= left);
                lemma_box_grows(sx, sy, i + 1, ex, ey);
            }
            while j < end_y
                invariant
                    start_y <= j,
                    j <= end_y || j == start_y,
                    buffer@ == stroke(
                        before,
                        left + column_points(i as int, sy, j as int),
                        width as int,
                        color,
                    ),
                    stroke_outcome(
                        left + column_points(i as int, sy, j as int),
                        width as int,
                        before.len() as int,
                    ) is Ok,
                decreases end_y - j,
            {
                let ghost done = left + column_points(i as int, sy, j as int);
                proof {
                    assert(done.push((i as int, j as int)) =~= left + column_points(
                        i as int,
                        sy,
                        j + 1,
                    ));
                    assert(box_points(sx, sy, i + 1, ey).take(done.len() as int + 1)
                        =~= done.push((i as int, j as int)));
                    assert(whole.take(done.len() as int + 1) =~= done.push((i as int, j as int)));
                }
                let drawn = crate::trace::continue_point(
                    buffer,
                    i as i128,
                    j as i128,
                    color,
                    width,
                    Ghost(before),
                    Ghost(done),
                );
                if drawn.is_err() {
                    proof {
                        lemma_stroke_stuck(
                            before,
                            whole,
                            done.len() as int + 1,
                            width as int,
                            color,
                        );
                    }
                    return drawn;
                }
                j += 1;
            }
            proof {
                assert(column_points(i as int, sy, j as int) =~= column_points(i as int, sy, ey));
            }
            i += 1;
        }
        Ok(())
    }

    /// Fills the box between `(start_x, start_y)` and `(end_x, end_y)` with
    /// black, as `draw_box` does with a colour.
    pub fn screen_clear(
        &self,
        buffer: &mut [u32],
        start_x: usize,
        start_y: usize,
        end_x: usize,
        end_y: usize,
    ) -> (r: Result<(), PixelOutOfBounds>)
        ensures
            final(buffer)@ == stroke(
                old(buffer)@,
                box_points(start_x as int, start_y as int, end_x as int, end_y as int),
                self.row_width(),
                0u32,
            ),
            r == stroke_outcome(
                box_points(start_x as int, start_y as int, end_x as int, end_y as int),
                self.row_width(),
                old(buffer)@.len() as int,
            ),
    {
        self.draw_box(buffer, start_x, start_y, end_x, end_y, 0x00_00_00)
    }

    /// Draws a border `border_thickness` deep inside the rectangle between
    /// `(start_x, start_y)` and `(end_x, end_y)`, ring by ring from the
    /// outside, and stops with a report at the first point outside the buffer.
    #[verifier::loop_isolation(false)]
    pub fn draw_rectangle(
        &self,
        buffer: &mut [u32],
        start_x: usize,
        start_y: usize,
        end_x: usize,
        end_y: usize,
        border_thickness: usize,
        color: u32,
    ) -> (r: Result<(), PixelOutOfBounds>)
        requires
            border_thickness > 0 ==> {
                &&& start_x + border_thickness <= isize::MAX
                &&& start_y + border_thickness <= isize::MAX
                &&& end_x <= isize::MAX
                &&& end_y <= isize::MAX
            },
        ensures
            final(buffer)@ == stroke(
                old(buffer)@,
                rectangle_points(
                    start_x as int,
                    start_y as int,
                    end_x as int,
                    end_y as int,
                    border_thickness as nat,
                ),
                self.row_width(),
                color,
            ),
            r == stroke_outcome(
                rectangle_points(
                    start_x as int,
                    start_y as int,
                    end_x as int,
                    end_y as int,
                    border_thickness as nat,
                ),
                self.row_width(),
                old(buffer)@.len() as int,
            ),
            r is Ok ==> forall|i: int|
                0 <= i < border_thickness ==> #[trigger] ring_traced(
                    start_x as int,
                    start_y as int,
                    end_x as int,
                    end_y as int,
                    i,
                ),
    {
        let ghost before = buffer@;
        let ghost (sx, sy, ex, ey) = (start_x as int, start_y as int, end_x as int, end_y as int);
        let ghost whole = rectangle_points(sx, sy, ex, ey, border_thickness as nat);
        let width = self.window_width;
        proof {
            lemma_stroke_nothing(before, width as int, color);
        }
        if border_thickness == 0 {
            return Ok(());
        }
        let (top, bottom) = (start_y as isize, end_y as isize);
        let (left, right) = (start_x as isize, end_x as isize);
        let mut i: usize = 0;
        while i < border_thickness
            invariant
                i <= border_thickness,
                forall|j: int| 0 <= j < i ==> #[trigger] ring_traced(sx, sy, ex, ey, j),
                buffer@ == stroke(
                    before,
                    rectangle_points(sx, sy, ex, ey, i as nat),
                    width as int,
                    color,
                ),
                stroke_outcome(
                    rectangle_points(sx, sy, ex, ey, i as nat),
                    width as int,
                    before.len() as int,
                ) is Ok,
            decreases border_thickness - i,
        {
            let ghost ring0 = rectangle_points(sx, sy, ex, ey, i as nat);
            let ghost ring1 = ring0 + segment_points(sx + i, sy, sx + i, ey);
            let ghost ring2 = ring1 + segment_points(ex - i - 1, sy, ex - i - 1, ey);
            let ghost ring3 = ring2 + segment_points(sx, sy + i, ex, sy + i);
            let ghost ring4 = ring3 + segment_points(sx, ey - i - 1, ex, ey - i - 1);
            proof {
                lemma_rectangle_grows(sx, sy, ex, ey, (i + 1) as nat, border_thickness as nat);
                assert(ring4 =~= rectangle_points(sx, sy, ex, ey, (i + 1) as nat));
                assert(whole.take(ring4.len() as int) == ring4);
                assert(whole.take(ring1.len() as int) =~= ring1);
                assert(whole.take(ring2.len() as int) =~= ring2);
                assert(whole.take(ring3.len() as int) =~= ring3);
            }
            let near_x = left + i as isize;
            let far_x = right - i as isize - 1;
            let near_y = top + i as isize;
            let far_y = bottom - i as isize - 1;
            let drawn = continue_segment(
                buffer,
                near_x,
                top,
                near_x,
                bottom,
                color,
                width,
                Ghost(before),
                Ghost(ring0),
            );
            if drawn.is_err() {
                proof {
                    lemma_stroke_stuck(before, whole, ring1.len() as int, width as int, color);
                }
                return drawn;
            }
            let drawn = continue_segment(
                buffer,
                far_x,
                top,
                far_x,
                bottom,
                color,
                width,
                Ghost(before),
                Ghost(ring1),
            );
            if drawn.is_err() {
                proof {
                    lemma_stroke_stuck(before, whole, ring2.len() as int, width as int, color);
                }
                return drawn;
            }
            let drawn = continue_segment(
                buffer,
                left,
                near_y,
                right,
                near_y,
                color,
                width,
                Ghost(before),
                Ghost(ring2),
            );
            if drawn.is_err() {
                proof {
                    lemma_stroke_stuck(before, whole, ring3.len() as int, width as int, color);
                }
                return drawn;
            }
            let drawn = continue_segment(
                buffer,
                left,
                far_y,
                right,
                far_y,
                color,
                width,
                Ghost(before),
                Ghost(ring3),
            );
            if drawn.is_err() {
                proof {
                    lemma_stroke_stuck(before, whole, ring4.len() as int, width as int, color);
                }
                return drawn;
            }
            i += 1;
        }
        Ok(())
    }

    /// Draws the outline of the circle of radius `radius` about
    /// `(start_x, start_y)`, column by column away from the vertical axis,
    /// and stops with a report at the first point outside the buffer.
    #[verifier::loop_isolation(false)]
    pub fn draw_circle(
        &self,
        buffer: &mut [u32],
        start_x: usize,
        start_y: usize,
        radius: usize,
        color: u32,
    ) -> (r: Result<(), PixelOutOfBounds>)
        ensures
            final(buffer)@ == stroke(
                old(buffer)@,
                circle_outline(start_x as int, start_y as int, radius as int),
                self.row_width(),
                color,
            ),
            r == stroke_outcome(
                circle_outline(start_x as int, start_y as int, radius as int),
                self.row_width(),
                old(buffer)@.len() as int,
            ),
    {
        let ghost before = buffer@;
        let ghost whole = circle_outline(start_x as int, start_y as int, radius as int);
        let ghost mut done: Seq<(int, int)> = Seq::empty();
        let width = self.window_width;
        let cx = start_x as i128;
        let cy = start_y as i128;
        let reach = radius as i128;
        let mut d: i128 = 3 - 2 * reach;
        let mut x: i128 = 0;
        let mut y: i128 = reach;
        proof {
            lemma_stroke_nothing(before, width as int, color);
            assert(rim_excess(reach as int, 0, reach as int) == 3 - 2 * reach) by (nonlinear_arith);
        }
        while y >= x
            invariant
                0 <= x <= reach + 1,
                -1 <= y <= reach,
                d == rim_excess(reach as int, x as int, y as int),
                -4 * reach - 3 <= d <= 18 * (x + 1),
                whole == done + outline_from(cx as int, cy as int, reach as int, x as int, y as int),
                buffer@ == stroke(before, done, width as int, color),
                stroke_outcome(done, width as int, before.len() as int) is Ok,
            decreases y - x + 2,
        {
            let ghost (x_was, y_was) = (x as int, y as int);
            x += 1;
            if d > 0 {
                y -= 1;
                d = d + 4 * (x - y) + 10;
            } else {
                d = d + 4 * x + 6;
            }
            proof {
                assert(rim_excess(reach as int, x_was + 1, y_was) == rim_excess(
                    reach as int,
                    x_was,
                    y_was,
                ) + 4 * (x_was + 1) + 6) by (nonlinear_arith);
                assert(rim_excess(reach as int, x_was + 1, y_was - 1) == rim_excess(
                    reach as int,
                    x_was,
                    y_was,
                ) + 4 * (x_was + 1 - (y_was - 1)) + 10) by (nonlinear_arith);
            }
            let ring: [(i128, i128); 8] = [
                (cx + x, cy + y),
                (cx - x, cy + y),
                (cx + x, cy - y),
                (cx - x, cy - y),
                (cx + y, cy + x),
                (cx - y, cy + x),
                (cx + y, cy - x),
                (cx - y, cy - x),
            ];
            let ghost column = octants(cx as int, cy as int, x as int, y as int);
            proof {
                assert(points_of(ring@) =~= column);
                assert(whole =~= (done + column) + outline_from(
                    cx as int,
                    cy as int,
                    reach as int,
                    x as int,
                    y as int,
                ));
                assert(whole.take((done + column).len() as int) =~= done + column);
            }
            let drawn = continue_points(buffer, &ring, color, width, Ghost(before), Ghost(done));
            if drawn.is_err() {
                proof {
                    lemma_stroke_stuck(
                        before,
                        whole,
                        (done + column).len() as int,
                        width as int,
                        color,
                    );
                }
                return drawn;
            }
            proof {
                done = done + column;
            }
        }
        proof {
            assert(whole =~= done);
        }
        Ok(())
    }
}

} // verus!
