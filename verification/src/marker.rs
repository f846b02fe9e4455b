//! The small shapes that mark a vertex on the screen: a point, a filled
//! disc, a filled square. Each is clipped to the frame pixel by pixel.

use crate::frame::{in_frame, lemma_paint_empty, lemma_paint_insert, paint, put_pixel};
use vstd::prelude::*;

verus! {

/// The shape drawn at a vertex.
#[derive(Debug, Clone, Copy, PartialEq, Eq)]
pub enum Object {
    Point,
    Circle { radius: usize },
    Square { radius: usize },
}

/// The square of side `2 * r + 1` centred on `(cx, cy)`.
pub open spec fn square(cx: int, cy: int, r: int) -> Set<(int, int)> {
    Set::new(|p: (int, int)| cx - r <= p.0 <= cx + r && cy - r <= p.1 <= cy + r)
}

/// The points at distance `r` or less from `(cx, cy)`.
pub open spec fn disc(cx: int, cy: int, r: int) -> Set<(int, int)> {
    Set::new(|p: (int, int)| (p.0 - cx) * (p.0 - cx) + (p.1 - cy) * (p.1 - cy) <= r * r)
}

/// The part of `shape` that a row-by-row scan of the square about
/// `(cx, cy)` has passed when it stands at the offset `(dx, dy)`.
pub open spec fn scanned(
    shape: Set<(int, int)>,
    cx: int,
    cy: int,
    r: int,
    dx: int,
    dy: int,
) -> Set<(int, int)> {
    Set::new(
        |p: (int, int)|
            shape.contains(p) && square(cx, cy, r).contains(p) && (p.1 - cy < dy || (p.1 - cy
                == dy && p.0 - cx < dx)),
    )
}

/// A disc lies within the square of the same radius.
pub proof fn lemma_disc_in_square(cx: int, cy: int, r: int, p: (int, int))
    requires
        r >= 0,
        disc(cx, cy, r).contains(p),
    ensures
        square(cx, cy, r).contains(p),
{
    let dx = p.0 - cx;
    let dy = p.1 - cy;
    assert(dx * dx + dy * dy <= r * r ==> -r <= dx <= r && -r <= dy <= r) by (nonlinear_arith)
        requires
            r >= 0,
    ;
}

/// The disc of radius zero is its centre alone.
pub proof fn lemma_disc_zero(cx: int, cy: int)
    ensures
        disc(cx, cy, 0) == set![(cx, cy)],
{
    assert forall|p: (int, int)| disc(cx, cy, 0).contains(p) == set![(cx, cy)].contains(p) by {
        let dx = p.0 - cx;
        let dy = p.1 - cy;
        assert(dx * dx + dy * dy <= 0 <==> dx == 0 && dy == 0) by (nonlinear_arith);
    }
    assert(disc(cx, cy, 0) =~= set![(cx, cy)]);
}

/// The disc of radius one is its centre and the four cells that share a
/// side with it; the four that share a corner only lie outside.
pub proof fn lemma_disc_one(cx: int, cy: int)
    ensures
        disc(cx, cy, 1) == set![(cx, cy), (cx + 1, cy), (cx - 1, cy), (cx, cy + 1), (cx, cy - 1)],
{
    let plus = set![(cx, cy), (cx + 1, cy), (cx - 1, cy), (cx, cy + 1), (cx, cy - 1)];
    assert forall|p: (int, int)| disc(cx, cy, 1).contains(p) == plus.contains(p) by {
        let dx = p.0 - cx;
        let dy = p.1 - cy;
        assert(dx * dx + dy * dy <= 1 <==> (dx == 0 && -1 <= dy <= 1) || (dy == 0 && -1 <= dx
            <= 1)) by (nonlinear_arith);
    }
    assert(disc(cx, cy, 1) =~= plus);
}

/// Gives `color` to the point `(center_x, center_y)` when it lies in the buffer.
pub fn draw_point(buffer: &mut [u32], center_x: usize, center_y: usize, width: usize, color: u32)
    ensures
        final(buffer)@ == paint(
            old(buffer)@,
            width as int,
            old(buffer)@.len() as int,
            color,
            set![(center_x as int, center_y as int)],
        ),
{
    let rows: usize = buffer.len();
    put_pixel(buffer, center_x as i128, center_y as i128, width, rows, color);
}

/// Whether the offset `(dx, dy)` lies at distance `r` or less from the origin.
fn within_radius(dx: i128, dy: i128, r: i128) -> (inside: bool)
    requires
        0 <= r <= usize::MAX,
        -r <= dx <= r,
        -r <= dy <= r,
    ensures
        inside == (dx * dx + dy * dy <= r * r),
{
    let ax: u128 = if dx < 0 { (-dx) as u128 } else { dx as u128 };
    let ay: u128 = if dy < 0 { (-dy) as u128 } else { dy as u128 };
    let ar: u128 = r as u128;
    proof {
        assert(ax * ax == dx * dx && ay * ay == dy * dy) by (nonlinear_arith)
            requires
                ax == dx || ax == -dx,
                ay == dy || ay == -dy,
        ;
        assert(ax * ax <= ar * ar && ay * ay <= ar * ar && ar * ar <= 0xffff_ffff_ffff_ffff
            * 0xffff_ffff_ffff_ffff) by (nonlinear_arith)
            requires
                0 <= ax <= ar,
                0 <= ay <= ar,
                ar <= 0xffff_ffff_ffff_ffff,
        ;
    }
    ax * ax <= ar * ar - ay * ay
}

/// Scans the square of radius `radius` about the centre row by row and gives
/// `color` to each point of the disc, or of the whole square, that lies in
/// the frame.
#[verifier::loop_isolation(false)]
fn fill_marker(
    buffer: &mut [u32],
    center_x: usize,
    center_y: usize,
    width: usize,
    height: usize,
    radius: usize,
    color: u32,
    round: bool,
)
    ensures
        final(buffer)@ == paint(
            old(buffer)@,
            width as int,
            height as int,
            color,
            if round {
                disc(center_x as int, center_y as int, radius as int)
            } else {
                square(center_x as int, center_y as int, radius as int)
            },
        ),
{
    let ghost before = buffer@;
    let ghost (cx, cy, r) = (center_x as int, center_y as int, radius as int);
    let ghost shape = if round {
        disc(cx, cy, r)
    } else {
        square(cx, cy, r)
    };
    let reach = radius as i128;
    let mut dy: i128 = -reach;
    proof {
        assert(scanned(shape, cx, cy, r, -r, -r) =~= Set::<(int, int)>::empty());
        lemma_paint_empty(before, width as int, height as int, color);
    }
    while dy <= reach
        invariant
            -reach <= dy <= reach + 1,
            buffer@ == paint(
                before,
                width as int,
                height as int,
                color,
                scanned(shape, cx, cy, r, -r, dy as int),
            ),
        decreases reach - dy + 1,
    {
        let mut dx: i128 = -reach;
        while dx <= reach
            invariant
                -reach <= dx <= reach + 1,
                -reach <= dy <= reach,
                buffer@ == paint(
                    before,
                    width as int,
                    height as int,
                    color,
                    scanned(shape, cx, cy, r, dx as int, dy as int),
                ),
            decreases reach - dx + 1,
        {
            let ghost so_far = scanned(shape, cx, cy, r, dx as int, dy as int);
            let ghost next = scanned(shape, cx, cy, r, dx + 1, dy as int);
            if !round || within_radius(dx, dy, reach) {
                proof {
                    assert(shape.contains((cx + dx, cy + dy)));
                    assert(next =~= so_far.insert((cx + dx, cy + dy)));
                    lemma_paint_insert(
                        before,
                        width as int,
                        height as int,
                        color,
                        so_far,
                        cx + dx,
                        cy + dy,
                    );
                }
                put_pixel(
                    buffer,
                    center_x as i128 + dx,
                    center_y as i128 + dy,
                    width,
                    height,
                    color,
                );
            } else {
                proof {
                    assert(!shape.contains((cx + dx, cy + dy)));
                    assert(next =~= so_far);
                }
            }
            dx += 1;
        }
        proof {
            assert(scanned(shape, cx, cy, r, r + 1, dy as int) =~= scanned(
                shape,
                cx,
                cy,
                r,
                -r,
                dy + 1,
            ));
        }
        dy += 1;
    }
    proof {
        assert forall|p: (int, int)| shape.contains(p) implies square(cx, cy, r).contains(p) by {
            if round {
                lemma_disc_in_square(cx, cy, r, p);
            }
        }
        assert(scanned(shape, cx, cy, r, -r, r + 1) =~= shape);
    }
}

/// Fills the square of side `2 * radius + 1` centred on
/// `(center_x, center_y)`, as far as it lies in the frame.
pub fn draw_square(
    buffer: &mut [u32],
    center_x: usize,
    center_y: usize,
    width: usize,
    height: usize,
    radius: usize,
    color: u32,
)
    ensures
        final(buffer)@ == paint(
            old(buffer)@,
            width as int,
            height as int,
            color,
            square(center_x as int, center_y as int, radius as int),
        ),
{
    fill_marker(buffer, center_x, center_y, width, height, radius, color, false)
}

/// Fills the disc of radius `radius` about `(center_x, center_y)`, as far as
/// it lies in the frame.
pub fn draw_circle(
    buffer: &mut [u32],
    center_x: usize,
    center_y: usize,
    width: usize,
    height: usize,
    radius: usize,
    color: u32,
)
    ensures
        final(buffer)@ == paint(
            old(buffer)@,
            width as int,
            height as int,
            color,
            disc(center_x as int, center_y as int, radius as int),
        ),
{
    fill_marker(buffer, center_x, center_y, width, height, radius, color, true)
}

impl Object {
    /// The points of this marker when it is centred on `(cx, cy)`.
    pub open spec fn shape(&self, cx: int, cy: int) -> Set<(int, int)> {
        match self {
            Object::Point => set![(cx, cy)],
            Object::Circle { radius } => disc(cx, cy, *radius as int),
            Object::Square { radius } => square(cx, cy, *radius as int),
        }
    }

    /// Draws this marker centred on `(center_x, center_y)`, as far as it lies
    /// in the frame.
    pub fn draw(
        &self,
        buffer: &mut [u32],
        center_x: usize,
        center_y: usize,
        width: usize,
        height: usize,
        color: u32,
    )
        ensures
            final(buffer)@ == paint(
                old(buffer)@,
                width as int,
                height as int,
                color,
                self.shape(center_x as int, center_y as int),
            ),
    {
        match self {
            Object::Point => {
                proof {
                    let (cx, cy) = (center_x as int, center_y as int);
                    let (w, h, len) = (width as int, height as int, buffer@.len() as int);
                    lemma_paint_empty(buffer@, w, h, color);
                    lemma_paint_empty(buffer@, w, len, color);
                    lemma_paint_insert(buffer@, w, h, color, Set::empty(), cx, cy);
                    lemma_paint_insert(buffer@, w, len, color, Set::empty(), cx, cy);
                    assert(set![(cx, cy)] =~= Set::<(int, int)>::empty().insert((cx, cy)));
                    crate::frame::lemma_rows_never_bind(cx, cy, w, len);
                    assert(cy < h ==> (in_frame(cx, cy, w, h, len) <==> in_frame(
                        cx,
                        cy,
                        w,
                        len,
                        len,
                    )));
                }
                if center_y < height {
                    draw_point(buffer, center_x, center_y, width, color)
                }
            },
            Object::Circle { radius } => {
                draw_circle(buffer, center_x, center_y, width, height, *radius, color)
            },
            Object::Square { radius } => {
                draw_square(buffer, center_x, center_y, width, height, *radius, color)
            },
        }
    }
}

} // verus!
