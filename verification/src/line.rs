//! Straight lines traced with an integer error term, both end points
//! included, clipped to the frame pixel by pixel.

use crate::frame::{lemma_paint_empty, lemma_paint_insert, paint, put_pixel};
use crate::trace::lemma_take_step;
use vstd::arithmetic::div_mod::{
    lemma_fundamental_div_mod, lemma_fundamental_div_mod_converse, lemma_mod_bound,
};
use vstd::prelude::*;

verus! {

/// The distance between two coordinates.
pub open spec fn span(from: int, to: int) -> int {
    if from <= to {
        to - from
    } else {
        from - to
    }
}

/// The coordinate `steps` away from `from` on the side of `to`.
pub open spec fn toward(from: int, to: int, steps: int) -> int {
    if from < to {
        from + steps
    } else {
        from - steps
    }
}

/// The number of steps of the line: the longer of its two extents.
pub open spec fn line_steps(x0: int, y0: int, x1: int, y1: int) -> int {
    if span(x0, x1) >= span(y0, y1) {
        span(x0, x1)
    } else {
        span(y0, y1)
    }
}

/// How far a line has come along an axis of extent `extent` after `k` of its
/// `steps` steps: `extent * k / steps`, rounded to the nearest integer, a half
/// rounded up.
pub open spec fn advance(extent: int, steps: int, k: int) -> int {
    if steps == 0 {
        0
    } else {
        (2 * extent * k + steps) / (2 * steps)
    }
}

/// The point of the line from `(x0, y0)` to `(x1, y1)` after `k` steps.
pub open spec fn line_point(x0: int, y0: int, x1: int, y1: int, k: int) -> (int, int) {
    let steps = line_steps(x0, y0, x1, y1);
    (
        toward(x0, x1, advance(span(x0, x1), steps, k)),
        toward(y0, y1, advance(span(y0, y1), steps, k)),
    )
}

/// The points of the line from `(x0, y0)` to `(x1, y1)`, in order.
pub open spec fn line_trace(x0: int, y0: int, x1: int, y1: int) -> Seq<(int, int)> {
    Seq::new((line_steps(x0, y0, x1, y1) + 1) as nat, |k: int| line_point(x0, y0, x1, y1, k))
}

/// The error term that the tracer holds after it has come `i` along the
/// horizontal extent `a` and `j` along the vertical extent `b`.
pub open spec fn error_term(a: int, b: int, i: int, j: int) -> int {
    a * (j + 1) - b * (i + 1)
}

/// A quotient is pinned by the two multiples of the divisor around the dividend.
proof fn lemma_quotient(p: int, d: int, q: int)
    requires
        d > 0,
        q * d <= p < q * d + d,
    ensures
        p / d == q,
{
    lemma_fundamental_div_mod_converse(p, d, q, p - q * d);
}

/// The two multiples of the divisor around a dividend.
proof fn lemma_quotient_bounds(p: int, d: int)
    requires
        d > 0,
    ensures
        (p / d) * d <= p < (p / d) * d + d,
{
    lemma_fundamental_div_mod(p, d);
    lemma_mod_bound(p, d);
    assert(d * (p / d) == (p / d) * d) by (nonlinear_arith);
}

/// Along its longer extent a line advances by one with every step.
pub proof fn lemma_advance_major(steps: int, k: int)
    requires
        steps > 0,
    ensures
        advance(steps, steps, k) == k,
{
    assert(k * (2 * steps) + steps == 2 * steps * k + steps) by (nonlinear_arith);
    lemma_quotient(2 * steps * k + steps, 2 * steps, k);
}

/// A line starts where it is said to start and ends, after its last step,
/// where it is said to end.
pub proof fn lemma_advance_ends(extent: int, steps: int)
    requires
        0 <= extent <= steps,
    ensures
        advance(extent, steps, 0) == 0,
        advance(extent, steps, steps) == extent,
{
    if steps > 0 {
        assert(2 * extent * 0 + steps == steps) by (nonlinear_arith);
        lemma_quotient(steps, 2 * steps, 0);
        assert(extent * (2 * steps) + steps == 2 * extent * steps + steps) by (nonlinear_arith);
        lemma_quotient(2 * extent * steps + steps, 2 * steps, extent);
    }
}

/// One step of the tracer. With `i` and `j` the advances after `k` steps and
/// `e` the error term there, the line moves along the horizontal axis exactly
/// when `2 * e >= -b` and along the vertical axis exactly when `2 * e <= a`;
/// the error term stays within three times the number of steps.
pub proof fn lemma_line_step(a: int, b: int, k: int)
    requires
        0 <= a,
        0 <= b,
        0 <= k <= (if a >= b { a } else { b }),
        a > 0 || b > 0,
    ensures
        ({
            let n = if a >= b { a } else { b };
            let i = advance(a, n, k);
            let j = advance(b, n, k);
            let e = error_term(a, b, i, j);
            &&& 0 <= i <= a
            &&& 0 <= j <= b
            &&& -3 * n <= 2 * e <= 3 * n
            &&& advance(a, n, k + 1) == if 2 * e >= -b { i + 1 } else { i }
            &&& advance(b, n, k + 1) == if 2 * e <= a { j + 1 } else { j }
        }),
{
    let n = if a >= b { a } else { b };
    let i = advance(a, n, k);
    let j = advance(b, n, k);
    let e = error_term(a, b, i, j);
    let pa = 2 * a * k + n;
    let pb = 2 * b * k + n;
    lemma_quotient_bounds(pa, 2 * n);
    lemma_quotient_bounds(pb, 2 * n);
    let ak = a * k;
    let bk = b * k;
    assert(2 * a * k == 2 * ak) by (nonlinear_arith)
        requires
            ak == a * k,
    ;
    assert(2 * b * k == 2 * bk) by (nonlinear_arith)
        requires
            bk == b * k,
    ;
    assert(2 * a * (k + 1) == 2 * ak + 2 * a) by (nonlinear_arith)
        requires
            ak == a * k,
    ;
    assert(2 * b * (k + 1) == 2 * bk + 2 * b) by (nonlinear_arith)
        requires
            bk == b * k,
    ;
    assert(ak >= 0 && bk >= 0) by (nonlinear_arith)
        requires
            ak == a * k,
            bk == b * k,
            a >= 0,
            b >= 0,
            k >= 0,
    ;
    let ni = n * i;
    let nj = n * j;
    assert(i * (2 * n) == 2 * ni && (i + 1) * (2 * n) == 2 * ni + 2 * n && (i + 2) * (2 * n) == 2
        * ni + 4 * n) by (nonlinear_arith)
        requires
            ni == n * i,
    ;
    assert(j * (2 * n) == 2 * nj && (j + 1) * (2 * n) == 2 * nj + 2 * n && (j + 2) * (2 * n) == 2
        * nj + 4 * n) by (nonlinear_arith)
        requires
            nj == n * j,
    ;
    assert(i >= 0 && j >= 0) by (nonlinear_arith)
        requires
            ni == n * i,
            nj == n * j,
            n > 0,
            2 * ni + 2 * n > 0,
            2 * nj + 2 * n > 0,
    ;
    assert(ak <= a * n && bk <= b * n) by (nonlinear_arith)
        requires
            ak == a * k,
            bk == b * k,
            0 <= k <= n,
            0 <= a,
            0 <= b,
    ;
    assert(i > a ==> ni >= a * n + n) by (nonlinear_arith)
        requires
            ni == n * i,
            n > 0,
    ;
    assert(j > b ==> nj >= b * n + n) by (nonlinear_arith)
        requires
            nj == n * j,
            n > 0,
    ;
    if a >= b {
        lemma_advance_major(a, k);
        lemma_advance_major(a, k + 1);
        assert(e == nj + a - bk - b) by (nonlinear_arith)
            requires
                e == a * (j + 1) - b * (i + 1),
                i == k,
                nj == a * j,
                bk == b * k,
        ;
        if 2 * e <= a {
            lemma_quotient(2 * b * (k + 1) + n, 2 * n, j + 1);
        } else {
            lemma_quotient(2 * b * (k + 1) + n, 2 * n, j);
        }
    } else {
        lemma_advance_major(b, k);
        lemma_advance_major(b, k + 1);
        assert(e == ak + a - ni - b) by (nonlinear_arith)
            requires
                e == a * (j + 1) - b * (i + 1),
                j == k,
                ni == b * i,
                ak == a * k,
        ;
        if 2 * e >= -b {
            lemma_quotient(2 * a * (k + 1) + n, 2 * n, i + 1);
        } else {
            lemma_quotient(2 * a * (k + 1) + n, 2 * n, i);
        }
    }
}

/// A line has one point more than steps, starts at its start and ends at its end.
pub proof fn lemma_line_ends(x0: int, y0: int, x1: int, y1: int)
    ensures
        line_trace(x0, y0, x1, y1).len() == line_steps(x0, y0, x1, y1) + 1,
        line_trace(x0, y0, x1, y1).first() == (x0, y0),
        line_trace(x0, y0, x1, y1).last() == (x1, y1),
{
    let n = line_steps(x0, y0, x1, y1);
    lemma_advance_ends(span(x0, x1), n);
    lemma_advance_ends(span(y0, y1), n);
}

/// A line from a point to itself is that point alone.
pub proof fn lemma_line_single(x: int, y: int)
    ensures
        line_trace(x, y, x, y) == seq![(x, y)],
{
    assert(line_trace(x, y, x, y) =~= seq![(x, y)]);
}

/// Each step of a line moves by one along the longer extent and by one or
/// not at all along the other, always towards the end.
pub proof fn lemma_line_connected(x0: int, y0: int, x1: int, y1: int, k: int)
    requires
        0 <= k < line_steps(x0, y0, x1, y1),
    ensures
        ({
            let here = line_trace(x0, y0, x1, y1)[k];
            let next = line_trace(x0, y0, x1, y1)[k + 1];
            let along_x = next.0 - here.0;
            let along_y = next.1 - here.1;
            &&& along_x == 0 || along_x == toward(0, x1 - x0, 1)
            &&& along_y == 0 || along_y == toward(0, y1 - y0, 1)
            &&& span(x0, x1) >= span(y0, y1) ==> along_x != 0
            &&& span(y0, y1) >= span(x0, x1) ==> along_y != 0
        }),
{
    let n = line_steps(x0, y0, x1, y1);
    lemma_line_step(span(x0, x1), span(y0, y1), k);
    lemma_advance_major(n, k);
    lemma_advance_major(n, k + 1);
}

/// A line stays within the box that its end points span.
pub proof fn lemma_line_in_box(x0: int, y0: int, x1: int, y1: int, k: int)
    requires
        0 <= k <= line_steps(x0, y0, x1, y1),
    ensures
        ({
            let here = line_trace(x0, y0, x1, y1)[k];
            &&& x0 <= here.0 <= x1 || x1 <= here.0 <= x0
            &&& y0 <= here.1 <= y1 || y1 <= here.1 <= y0
        }),
{
    if line_steps(x0, y0, x1, y1) > 0 {
        lemma_line_step(span(x0, x1), span(y0, y1), k);
    }
}

/// A level line holds each point between its ends, one per step.
pub proof fn lemma_line_level(x0: int, x1: int, y: int, k: int)
    requires
        0 <= k <= span(x0, x1),
    ensures
        line_trace(x0, y, x1, y).len() == span(x0, x1) + 1,
        line_trace(x0, y, x1, y)[k] == (toward(x0, x1, k), y),
{
    if span(x0, x1) > 0 {
        lemma_advance_major(span(x0, x1), k);
        assert(2 * 0 * k == 0) by (nonlinear_arith);
        lemma_quotient(span(x0, x1), 2 * span(x0, x1), 0);
    }
}

/// An upright line holds each point between its ends, one per step.
pub proof fn lemma_line_upright(x: int, y0: int, y1: int, k: int)
    requires
        0 <= k <= span(y0, y1),
    ensures
        line_trace(x, y0, x, y1).len() == span(y0, y1) + 1,
        line_trace(x, y0, x, y1)[k] == (x, toward(y0, y1, k)),
{
    if span(y0, y1) > 0 {
        lemma_advance_major(span(y0, y1), k);
        assert(2 * 0 * k == 0) by (nonlinear_arith);
        lemma_quotient(span(y0, y1), 2 * span(y0, y1), 0);
    }
}

/// A line whose extents are equal moves along both axes with every step.
pub proof fn lemma_line_diagonal(x0: int, y0: int, x1: int, y1: int, k: int)
    requires
        span(x0, x1) == span(y0, y1),
        0 <= k <= span(x0, x1),
    ensures
        line_trace(x0, y0, x1, y1).len() == span(x0, x1) + 1,
        line_trace(x0, y0, x1, y1)[k] == (toward(x0, x1, k), toward(y0, y1, k)),
{
    if span(x0, x1) > 0 {
        lemma_advance_major(span(x0, x1), k);
    }
}

/// Traces the line from `(x0, y0)` to `(x1, y1)`, both included, and gives
/// `color` to each of its points that lies in the frame. Points outside the
/// frame are passed over.
#[verifier::loop_isolation(false)]
pub fn bresenham_line(
    buffer: &mut [u32],
    x0: usize,
    y0: usize,
    x1: usize,
    y1: usize,
    width: usize,
    height: usize,
    color: u32,
)
    ensures
        final(buffer)@ == paint(
            old(buffer)@,
            width as int,
            height as int,
            color,
            line_trace(x0 as int, y0 as int, x1 as int, y1 as int).to_set(),
        ),
{
    let ghost before = buffer@;
    let ghost trace = line_trace(x0 as int, y0 as int, x1 as int, y1 as int);
    let ghost a = span(x0 as int, x1 as int);
    let ghost b = span(y0 as int, y1 as int);
    let ghost n = line_steps(x0 as int, y0 as int, x1 as int, y1 as int);
    let x_end = x1 as i128;
    let y_end = y1 as i128;
    let mut x = x0 as i128;
    let mut y = y0 as i128;
    let dx: i128 = if x < x_end { x_end - x } else { x - x_end };
    let dy: i128 = -(if y < y_end { y_end - y } else { y - y_end });
    let sx: i128 = if x < x_end { 1 } else { -1 };
    let sy: i128 = if y < y_end { 1 } else { -1 };
    let mut err: i128 = dx + dy;
    let ghost mut k: int = 0;
    proof {
        lemma_advance_ends(a, n);
        lemma_advance_ends(b, n);
        assert(error_term(a, b, 0, 0) == a - b) by (nonlinear_arith);
        assert(trace.take(0).to_set() =~= Set::<(int, int)>::empty());
        lemma_paint_empty(before, width as int, height as int, color);
    }
    loop
        invariant
            0 <= k <= n,
            (x as int, y as int) == line_point(x0 as int, y0 as int, x1 as int, y1 as int, k),
            err == error_term(a, b, advance(a, n, k), advance(b, n, k)),
            buffer@ == paint(before, width as int, height as int, color, trace.take(k).to_set()),
        decreases n - k,
    {
        let ghost i = advance(a, n, k);
        let ghost j = advance(b, n, k);
        proof {
            if n > 0 {
                lemma_line_step(a, b, k);
                lemma_advance_major(n, k);
                assert(a * (j + 2) == a * (j + 1) + a) by (nonlinear_arith);
                assert(b * (i + 2) == b * (i + 1) + b) by (nonlinear_arith);
            }
            lemma_take_step(trace, k);
            lemma_paint_insert(
                before,
                width as int,
                height as int,
                color,
                trace.take(k).to_set(),
                x as int,
                y as int,
            );
        }
        put_pixel(buffer, x, y, width, height, color);
        if x == x_end && y == y_end {
            proof {
                assert(trace.take(k + 1) =~= trace);
            }
            return ;
        }
        let e2 = 2 * err;
        if e2 >= dy {
            err += dy;
            x += sx;
        }
        if e2 <= dx {
            err += dx;
            y += sy;
        }
        proof {
            k = k + 1;
        }
    }
}

} // verus!
