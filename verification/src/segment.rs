//! Straight segments traced by the `bresenham` crate, drawn point by point
//! with a report of the first pixel that misses the buffer.

use crate::line::{lemma_line_level, lemma_line_upright, line_steps, line_trace, toward};
use crate::report::PixelOutOfBounds;
use crate::trace::{
    continue_point, lemma_stroke_nothing, lemma_stroke_stuck, stroke, stroke_outcome,
};
use vstd::prelude::*;

verus! {

/// The line iterator of the `bresenham` crate. Its fields are private to that
/// crate; the library only creates one and asks it for its next point.
#[verifier::external_type_specification]
#[verifier::external_body]
pub struct ExBresenham(::bresenham::Bresenham);

/// The points that the iterator made by `Bresenham::new((x0, y0), (x1, y1))`
/// yields, in order. What the crate's source fixes of them on every slope is
/// stated by `follows_tracer`; which cells a sloped segment takes between its
/// ends is left to the crate.
pub uninterp spec fn line_points(x0: isize, y0: isize, x1: isize, y1: isize) -> Seq<(isize, isize)>;

/// The points that an iterator has not yielded yet, in order.
pub uninterp spec fn pending(it: ::bresenham::Bresenham) -> Seq<(isize, isize)>;

/// The crate computes in `isize` and negates coordinates and differences:
/// each coordinate of the end points, and their distance along each axis,
/// must be a number whose negative is an `isize` too.
pub open spec fn fits_segment(x0: int, y0: int, x1: int, y1: int) -> bool {
    &&& -isize::MAX <= x0 <= isize::MAX
    &&& -isize::MAX <= y0 <= isize::MAX
    &&& -isize::MAX <= x1 <= isize::MAX
    &&& -isize::MAX <= y1 <= isize::MAX
    &&& -isize::MAX <= x1 - x0 <= isize::MAX
    &&& -isize::MAX <= y1 - y0 <= isize::MAX
}

/// The same points over the mathematical integers.
pub open spec fn as_points(raw: Seq<(isize, isize)>) -> Seq<(int, int)> {
    Seq::new(raw.len(), |i: int| (raw[i].0 as int, raw[i].1 as int))
}

/// What holds of the points `pts` that the tracer yields from `(x0, y0)`
/// towards `(x1, y1)`: there is one per step of the longer extent, the first
/// is the start, the end is not among them, and on a level or an upright
/// segment they are the cells from the start on, one after the other.
pub open spec fn follows_tracer(x0: int, y0: int, x1: int, y1: int, pts: Seq<(int, int)>) -> bool {
    &&& pts.len() == line_steps(x0, y0, x1, y1)
    &&& pts.len() > 0 ==> pts[0] == (x0, y0)
    &&& forall|k: int| 0 <= k < pts.len() ==> #[trigger] pts[k] != (x1, y1)
    &&& y0 == y1 ==> forall|k: int|
        0 <= k < pts.len() ==> #[trigger] pts[k] == (toward(x0, x1, k), y0)
    &&& x0 == x1 ==> forall|k: int|
        0 <= k < pts.len() ==> #[trigger] pts[k] == (x0, toward(y0, y1, k))
}

/// `Bresenham::new` of the `bresenham` crate. Claimed: the new iterator has
/// all the points of the segment still to yield, and these are as
/// `follows_tracer` says: the crate maps the segment into the octant where x
/// is the longer extent, walks x from the start up to, but not with, the end,
/// and maps each point back, so it yields one point per step of the longer
/// extent, the start first and never the end, and keeps the other coordinate
/// where the shorter extent is zero. Left out by `requires`: end points on
/// which the crate's `isize` arithmetic would overflow.
#[verifier::external_body]
fn line_from(x0: isize, y0: isize, x1: isize, y1: isize) -> (it: ::bresenham::Bresenham)
    requires
        fits_segment(x0 as int, y0 as int, x1 as int, y1 as int),
    ensures
        pending(it) == line_points(x0, y0, x1, y1),
        follows_tracer(x0 as int, y0 as int, x1 as int, y1 as int, as_points(pending(it))),
{
    ::bresenham::Bresenham::new((x0, y0), (x1, y1))
}

/// `Iterator::next` on the crate's `Bresenham`, for an iterator that
/// `line_from` made. Claimed: it hands out the first of the points still to
/// yield and keeps the rest, and returns `None` exactly when none is left,
/// changing nothing.
#[verifier::external_body]
fn next_point(it: &mut ::bresenham::Bresenham) -> (p: Option<(isize, isize)>)
    ensures
        match p {
            Some(q) => {
                &&& pending(*old(it)).len() > 0
                &&& q == pending(*old(it))[0]
                &&& pending(*final(it)) == pending(*old(it)).drop_first()
            },
            None => pending(*old(it)).len() == 0 && pending(*final(it)) == pending(*old(it)),
        },
{
    it.next()
}

/// The points of the segment from `(x0, y0)` towards `(x1, y1)`, as the crate
/// traces it: the start with it, the end without.
pub open spec fn segment_points(x0: int, y0: int, x1: int, y1: int) -> Seq<(int, int)> {
    as_points(line_points(x0 as isize, y0 as isize, x1 as isize, y1 as isize))
}

/// The points of the line from `(x0, y0)` to `(x1, y1)`, both ends with it:
/// the traced segment and then the end.
pub open spec fn closed_points(x0: int, y0: int, x1: int, y1: int) -> Seq<(int, int)> {
    segment_points(x0, y0, x1, y1).push((x1, y1))
}

/// A traced line has one point more than steps, starts at its start, ends at
/// its end and holds its end once.
pub proof fn lemma_closed_ends(x0: int, y0: int, x1: int, y1: int, pts: Seq<(int, int)>)
    requires
        follows_tracer(x0, y0, x1, y1, pts),
    ensures
        pts.push((x1, y1)).len() == line_steps(x0, y0, x1, y1) + 1,
        pts.push((x1, y1)).first() == (x0, y0),
        pts.push((x1, y1)).last() == (x1, y1),
        forall|k: int| 0 <= k < pts.len() ==> #[trigger] pts.push((x1, y1))[k] != (x1, y1),
{
    assert forall|k: int| 0 <= k < pts.len() implies #[trigger] pts.push((x1, y1))[k] != (
        x1,
        y1,
    ) by {
        assert(pts.push((x1, y1))[k] == pts[k]);
    }
}

/// A traced line from a point to itself is that point alone.
pub proof fn lemma_closed_single(x: int, y: int, pts: Seq<(int, int)>)
    requires
        follows_tracer(x, y, x, y, pts),
    ensures
        pts.push((x, y)) == seq![(x, y)],
{
    assert(pts.push((x, y)) =~= seq![(x, y)]);
}

/// A traced level line holds each cell between its ends, both with it, as
/// the line of the error-term tracer does.
pub proof fn lemma_closed_level(x0: int, x1: int, y: int, pts: Seq<(int, int)>)
    requires
        follows_tracer(x0, y, x1, y, pts),
    ensures
        pts.push((x1, y)) == line_trace(x0, y, x1, y),
{
    let closed = pts.push((x1, y));
    let trace = line_trace(x0, y, x1, y);
    assert forall|k: int| 0 <= k < closed.len() implies closed[k] == trace[k] by {
        lemma_line_level(x0, x1, y, k);
        if k < pts.len() {
            assert(closed[k] == pts[k]);
        }
    }
    assert(closed =~= trace);
}

/// A traced upright line holds each cell between its ends, both with it, as
/// the line of the error-term tracer does.
pub proof fn lemma_closed_upright(x: int, y0: int, y1: int, pts: Seq<(int, int)>)
    requires
        follows_tracer(x, y0, x, y1, pts),
    ensures
        pts.push((x, y1)) == line_trace(x, y0, x, y1),
{
    let closed = pts.push((x, y1));
    let trace = line_trace(x, y0, x, y1);
    assert forall|k: int| 0 <= k < closed.len() implies closed[k] == trace[k] by {
        lemma_line_upright(x, y0, y1, k);
        if k < pts.len() {
            assert(closed[k] == pts[k]);
        }
    }
    assert(closed =~= trace);
}

/// Draws the segment from `(x0, y0)` towards `(x1, y1)` point by point and
/// stops with a report at the first point outside the buffer.
#[verifier::loop_isolation(false)]
pub fn draw_segment(
    buffer: &mut [u32],
    x0: isize,
    y0: isize,
    x1: isize,
    y1: isize,
    color: u32,
    window_width: usize,
) -> (r: Result<(), PixelOutOfBounds>)
    requires
        fits_segment(x0 as int, y0 as int, x1 as int, y1 as int),
    ensures
        final(buffer)@ == stroke(
            old(buffer)@,
            segment_points(x0 as int, y0 as int, x1 as int, y1 as int),
            window_width as int,
            color,
        ),
        r == stroke_outcome(
            segment_points(x0 as int, y0 as int, x1 as int, y1 as int),
            window_width as int,
            old(buffer)@.len() as int,
        ),
        follows_tracer(
            x0 as int,
            y0 as int,
            x1 as int,
            y1 as int,
            segment_points(x0 as int, y0 as int, x1 as int, y1 as int),
        ),
{
    let ghost before = buffer@;
    let ghost raw = line_points(x0, y0, x1, y1);
    let ghost pts = segment_points(x0 as int, y0 as int, x1 as int, y1 as int);
    let ghost mut k: int = 0;
    let mut it = line_from(x0, y0, x1, y1);
    proof {
        assert(raw.subrange(0, raw.len() as int) =~= raw);
        assert(pts.take(0) =~= Seq::<(int, int)>::empty());
        lemma_stroke_nothing(before, window_width as int, color);
    }
    loop
        invariant
            0 <= k <= raw.len(),
            pending(it) == raw.subrange(k, raw.len() as int),
            buffer@ == stroke(before, pts.take(k), window_width as int, color),
            stroke_outcome(pts.take(k), window_width as int, before.len() as int) is Ok,
        decreases raw.len() - k,
    {
        match next_point(&mut it) {
            None => {
                proof {
                    assert(pts.take(k) =~= pts);
                }
                return Ok(());
            },
            Some((x, y)) => {
                proof {
                    assert(raw.subrange(k, raw.len() as int)[0] == raw[k]);
                    assert(raw.subrange(k, raw.len() as int).drop_first() =~= raw.subrange(
                        k + 1,
                        raw.len() as int,
                    ));
                    assert(pts.take(k).push((x as int, y as int)) =~= pts.take(k + 1));
                }
                let drawn = continue_point(
                    buffer,
                    x as i128,
                    y as i128,
                    color,
                    window_width,
                    Ghost(before),
                    Ghost(pts.take(k)),
                );
                if drawn.is_err() {
                    proof {
                        lemma_stroke_stuck(before, pts, k + 1, window_width as int, color);
                    }
                    return drawn;
                }
                proof {
                    k = k + 1;
                }
            },
        }
    }
}

/// The signed machine word with the bits of `c`: `c` itself up to
/// `isize::MAX`, and a negative number above.
pub open spec fn as_signed(c: usize) -> int {
    (c as isize) as int
}

/// A coordinate that fits a signed machine word stands for itself.
pub proof fn lemma_as_signed_small(c: usize)
    requires
        c <= isize::MAX,
    ensures
        as_signed(c) == c,
{
}

/// Draws the line from the start to the end, both with it: the points that
/// the tracer yields and then the end, each through the guarded write, and
/// stops with a report at the first point outside the buffer. The tracer
/// works on signed machine words: a coordinate above `isize::MAX` stands for
/// the negative number with the same bits.
pub fn draw_line(
    buffer: &mut [u32],
    start_x: usize,
    start_y: usize,
    end_x: usize,
    end_y: usize,
    color: u32,
    window_width: usize,
) -> (r: Result<(), PixelOutOfBounds>)
    requires
        fits_segment(as_signed(start_x), as_signed(start_y), as_signed(end_x), as_signed(end_y)),
    ensures
        final(buffer)@ == stroke(
            old(buffer)@,
            closed_points(
                as_signed(start_x),
                as_signed(start_y),
                as_signed(end_x),
                as_signed(end_y),
            ),
            window_width as int,
            color,
        ),
        r == stroke_outcome(
            closed_points(
                as_signed(start_x),
                as_signed(start_y),
                as_signed(end_x),
                as_signed(end_y),
            ),
            window_width as int,
            old(buffer)@.len() as int,
        ),
        follows_tracer(
            as_signed(start_x),
            as_signed(start_y),
            as_signed(end_x),
            as_signed(end_y),
            segment_points(
                as_signed(start_x),
                as_signed(start_y),
                as_signed(end_x),
                as_signed(end_y),
            ),
        ),
{
    let ghost before = buffer@;
    let x0 = #[verifier::truncate]
    (start_x as isize);
    let y0 = #[verifier::truncate]
    (start_y as isize);
    let x1 = #[verifier::truncate]
    (end_x as isize);
    let y1 = #[verifier::truncate]
    (end_y as isize);
    let ghost traced = segment_points(x0 as int, y0 as int, x1 as int, y1 as int);
    let ghost closed = closed_points(x0 as int, y0 as int, x1 as int, y1 as int);
    let drawn = draw_segment(buffer, x0, y0, x1, y1, color, window_width);
    if drawn.is_err() {
        proof {
            assert(closed.take(traced.len() as int) =~= traced);
            lemma_stroke_stuck(before, closed, traced.len() as int, window_width as int, color);
        }
        return drawn;
    }
    continue_point(
        buffer,
        x1 as i128,
        y1 as i128,
        color,
        window_width,
        Ghost(before),
        Ghost(traced),
    )
}

} // verus!
