//! Drawing a sequence of points one by one, stopping at the first that lies
//! outside the buffer.

use crate::frame::{
    in_buffer, lemma_paint_empty, lemma_paint_insert, lemma_paint_union, lemma_rows_never_bind,
    paint, put_pixel,
};
use crate::report::PixelOutOfBounds;
use vstd::prelude::*;

verus! {

/// How many points of `pts` are drawn before one lies outside a buffer of
/// `len` cells with rows `width` wide: the length of the longest prefix whose
/// points all lie inside.
pub open spec fn run_length(pts: Seq<(int, int)>, width: int, len: int) -> nat
    decreases pts.len(),
{
    if pts.len() == 0 {
        0
    } else if in_buffer(pts[0].0, pts[0].1, width, len) {
        1 + run_length(pts.drop_first(), width, len)
    } else {
        0
    }
}

/// The buffer after the points of `pts` were drawn in order in `color`, up to
/// the first that lies outside.
pub open spec fn stroke(buf: Seq<u32>, pts: Seq<(int, int)>, width: int, color: u32) -> Seq<u32> {
    paint(
        buf,
        width,
        buf.len() as int,
        color,
        pts.take(run_length(pts, width, buf.len() as int) as int).to_set(),
    )
}

/// What drawing `pts` in order reports: success when every point lies inside,
/// and the first point outside otherwise.
pub open spec fn stroke_outcome(pts: Seq<(int, int)>, width: int, len: int) -> Result<
    (),
    PixelOutOfBounds,
> {
    let k = run_length(pts, width, len) as int;
    if k == pts.len() {
        Ok(())
    } else {
        Err(PixelOutOfBounds { x: pts[k].0 as i128, y: pts[k].1 as i128 })
    }
}

/// `k` points of `pts` lie inside, and the next one, if there is one, does not.
pub open spec fn stops_at(pts: Seq<(int, int)>, k: int, width: int, len: int) -> bool {
    &&& 0 <= k <= pts.len()
    &&& forall|j: int| 0 <= j < k ==> in_buffer((#[trigger] pts[j]).0, pts[j].1, width, len)
    &&& k < pts.len() ==> !in_buffer(pts[k].0, pts[k].1, width, len)
}

/// The run length is a place where drawing stops.
pub proof fn lemma_run_length_stops(pts: Seq<(int, int)>, width: int, len: int)
    ensures
        stops_at(pts, run_length(pts, width, len) as int, width, len),
    decreases pts.len(),
{
    if pts.len() > 0 && in_buffer(pts[0].0, pts[0].1, width, len) {
        let rest = pts.drop_first();
        lemma_run_length_stops(rest, width, len);
        let k = run_length(pts, width, len) as int;
        assert forall|j: int| 0 <= j < k implies in_buffer(
            (#[trigger] pts[j]).0,
            pts[j].1,
            width,
            len,
        ) by {
            if j > 0 {
                assert(pts[j] == rest[j - 1]);
            }
        }
        if k < pts.len() {
            assert(pts[k] == rest[k - 1]);
        }
    }
}

/// Drawing stops in one place only, which the run length names.
pub proof fn lemma_run_length_is(pts: Seq<(int, int)>, k: int, width: int, len: int)
    requires
        stops_at(pts, k, width, len),
    ensures
        run_length(pts, width, len) == k,
    decreases pts.len(),
{
    if k > 0 {
        let rest = pts.drop_first();
        assert(in_buffer(pts[0].0, pts[0].1, width, len));
        assert forall|j: int| 0 <= j < k - 1 implies in_buffer(
            (#[trigger] rest[j]).0,
            rest[j].1,
            width,
            len,
        ) by {
            assert(rest[j] == pts[j + 1]);
        }
        if k - 1 < rest.len() {
            assert(rest[k - 1] == pts[k]);
        }
        lemma_run_length_is(rest, k - 1, width, len);
    }
}

/// The points of a prefix, as a set, grow by one point with each step.
pub proof fn lemma_take_step(pts: Seq<(int, int)>, k: int)
    requires
        0 <= k < pts.len(),
    ensures
        pts.take(k + 1).to_set() == pts.take(k).to_set().insert(pts[k]),
{
    let longer = pts.take(k + 1);
    let shorter = pts.take(k);
    assert forall|p: (int, int)| longer.to_set().contains(p) == shorter.to_set().insert(
        pts[k],
    ).contains(p) by {
        if longer.contains(p) {
            let j = choose|j: int| 0 <= j < longer.len() && longer[j] == p;
            if j < k {
                assert(shorter[j] == p);
            }
        }
        if shorter.contains(p) {
            let j = choose|j: int| 0 <= j < shorter.len() && shorter[j] == p;
            assert(longer[j] == p);
        }
        if p == pts[k] {
            assert(longer[k] == p);
        }
    }
    assert(longer.to_set() =~= shorter.to_set().insert(pts[k]));
}

/// Drawing `first` and then `second` is drawing the two in a row: where
/// `first` stops early nothing of `second` is drawn, and the report is that
/// of `first`.
pub proof fn lemma_stroke_concat(
    buf: Seq<u32>,
    first: Seq<(int, int)>,
    second: Seq<(int, int)>,
    width: int,
    color: u32,
)
    ensures
        stroke(buf, first, width, color).len() == buf.len(),
        stroke_outcome(first, width, buf.len() as int) is Ok ==> {
            &&& stroke(buf, first + second, width, color) == stroke(
                stroke(buf, first, width, color),
                second,
                width,
                color,
            )
            &&& stroke_outcome(first + second, width, buf.len() as int) == stroke_outcome(
                second,
                width,
                buf.len() as int,
            )
        },
        stroke_outcome(first, width, buf.len() as int) is Err ==> {
            &&& stroke(buf, first + second, width, color) == stroke(buf, first, width, color)
            &&& stroke_outcome(first + second, width, buf.len() as int) == stroke_outcome(
                first,
                width,
                buf.len() as int,
            )
        },
{
    let len = buf.len() as int;
    let both = first + second;
    let k1 = run_length(first, width, len) as int;
    let k2 = run_length(second, width, len) as int;
    lemma_run_length_stops(first, width, len);
    lemma_run_length_stops(second, width, len);
    if k1 == first.len() {
        let k = k1 + k2;
        assert forall|j: int| 0 <= j < k implies in_buffer(
            (#[trigger] both[j]).0,
            both[j].1,
            width,
            len,
        ) by {
            if j < k1 {
                assert(both[j] == first[j]);
            } else {
                assert(both[j] == second[j - k1]);
            }
        }
        if k < both.len() {
            assert(both[k] == second[k2]);
        }
        lemma_run_length_is(both, k, width, len);
        let s1 = first.take(k1).to_set();
        let s2 = second.take(k2).to_set();
        let s = both.take(k).to_set();
        assert forall|p: (int, int)| s.contains(p) == s1.union(s2).contains(p) by {
            if both.take(k).contains(p) {
                let j = choose|j: int| 0 <= j < k && both.take(k)[j] == p;
                if j < k1 {
                    assert(first.take(k1)[j] == p);
                } else {
                    assert(second.take(k2)[j - k1] == p);
                }
            }
            if first.take(k1).contains(p) {
                let j = choose|j: int| 0 <= j < k1 && first.take(k1)[j] == p;
                assert(both.take(k)[j] == p);
            }
            if second.take(k2).contains(p) {
                let j = choose|j: int| 0 <= j < k2 && second.take(k2)[j] == p;
                assert(both.take(k)[j + k1] == p);
            }
        }
        assert(s =~= s1.union(s2));
        lemma_paint_union(buf, width, len, color, s1, s2);
    } else {
        assert forall|j: int| 0 <= j < k1 implies in_buffer(
            (#[trigger] both[j]).0,
            both[j].1,
            width,
            len,
        ) by {
            assert(both[j] == first[j]);
        }
        assert(both[k1] == first[k1]);
        lemma_run_length_is(both, k1, width, len);
        assert(both.take(k1) =~= first.take(k1));
    }
}

/// Drawing that succeeds has painted every point, and drawing that fails
/// has left the reported point and all after it undrawn.
pub proof fn lemma_stroke_outcome(buf: Seq<u32>, pts: Seq<(int, int)>, width: int, color: u32)
    ensures
        stroke_outcome(pts, width, buf.len() as int) is Ok <==> forall|j: int|
            0 <= j < pts.len() ==> in_buffer((#[trigger] pts[j]).0, pts[j].1, width, buf.len() as int),
        stroke_outcome(pts, width, buf.len() as int) is Ok ==> stroke(buf, pts, width, color)
            == paint(buf, width, buf.len() as int, color, pts.to_set()),
        stroke_outcome(pts, width, buf.len() as int) is Err ==> {
            let k = run_length(pts, width, buf.len() as int) as int;
            &&& k < pts.len()
            &&& !in_buffer(pts[k].0, pts[k].1, width, buf.len() as int)
            &&& stroke_outcome(pts, width, buf.len() as int) == Err::<(), PixelOutOfBounds>(
                PixelOutOfBounds { x: pts[k].0 as i128, y: pts[k].1 as i128 },
            )
        },
{
    let len = buf.len() as int;
    lemma_run_length_stops(pts, width, len);
    if run_length(pts, width, len) == pts.len() {
        assert(pts.take(pts.len() as int) =~= pts);
    }
}

/// Once drawing has stopped early in a prefix, what follows the prefix
/// changes neither the buffer nor the report.
pub proof fn lemma_stroke_stuck(
    buf: Seq<u32>,
    whole: Seq<(int, int)>,
    n: int,
    width: int,
    color: u32,
)
    requires
        0 <= n <= whole.len(),
        stroke_outcome(whole.take(n), width, buf.len() as int) is Err,
    ensures
        stroke(buf, whole, width, color) == stroke(buf, whole.take(n), width, color),
        stroke_outcome(whole, width, buf.len() as int) == stroke_outcome(
            whole.take(n),
            width,
            buf.len() as int,
        ),
{
    assert(whole =~= whole.take(n) + whole.subrange(n, whole.len() as int));
    lemma_stroke_concat(buf, whole.take(n), whole.subrange(n, whole.len() as int), width, color);
}

/// Drawing no point changes nothing and succeeds.
pub proof fn lemma_stroke_nothing(buf: Seq<u32>, width: int, color: u32)
    ensures
        stroke(buf, Seq::empty(), width, color) == buf,
        stroke_outcome(Seq::empty(), width, buf.len() as int) is Ok,
{
    assert(Seq::<(int, int)>::empty().take(0).to_set() =~= Set::<(int, int)>::empty());
    lemma_paint_empty(buf, width, buf.len() as int, color);
}

/// Drawing one point is one guarded write.
pub proof fn lemma_stroke_one(buf: Seq<u32>, x: int, y: int, width: int, color: u32)
    ensures
        stroke(buf, seq![(x, y)], width, color) == paint(
            buf,
            width,
            buf.len() as int,
            color,
            set![(x, y)],
        ),
        stroke_outcome(seq![(x, y)], width, buf.len() as int) is Ok <==> in_buffer(
            x,
            y,
            width,
            buf.len() as int,
        ),
{
    let pts = seq![(x, y)];
    let len = buf.len() as int;
    lemma_rows_never_bind(x, y, width, len);
    lemma_paint_empty(buf, width, len, color);
    lemma_paint_insert(buf, width, len, color, Set::empty(), x, y);
    assert(set![(x, y)] =~= Set::<(int, int)>::empty().insert((x, y)));
    if in_buffer(x, y, width, len) {
        lemma_run_length_is(pts, 1, width, len);
        assert(pts.take(1) =~= pts);
        assert(pts.to_set() =~= set![(x, y)]);
    } else {
        lemma_run_length_is(pts, 0, width, len);
        assert(pts.take(0).to_set() =~= Set::<(int, int)>::empty());
    }
}

/// Draws one more point after the points of `done`, all of which were drawn.
pub(crate) fn continue_point(
    buffer: &mut [u32],
    x: i128,
    y: i128,
    color: u32,
    window_width: usize,
    Ghost(before): Ghost<Seq<u32>>,
    Ghost(done): Ghost<Seq<(int, int)>>,
) -> (r: Result<(), PixelOutOfBounds>)
    requires
        old(buffer)@ == stroke(before, done, window_width as int, color),
        stroke_outcome(done, window_width as int, before.len() as int) is Ok,
    ensures
        final(buffer)@ == stroke(before, done.push((x as int, y as int)), window_width as int, color),
        r == stroke_outcome(
            done.push((x as int, y as int)),
            window_width as int,
            before.len() as int,
        ),
        r is Ok <==> in_buffer(x as int, y as int, window_width as int, before.len() as int),
{
    let rows: usize = buffer.len();
    proof {
        lemma_stroke_concat(before, done, seq![(x as int, y as int)], window_width as int, color);
        lemma_stroke_one(buffer@, x as int, y as int, window_width as int, color);
        assert(done.push((x as int, y as int)) =~= done + seq![(x as int, y as int)]);
        lemma_rows_never_bind(x as int, y as int, window_width as int, rows as int);
        assert(rows == before.len());
        let one = seq![(x as int, y as int)];
        lemma_run_length_stops(one, window_width as int, rows as int);
        assert(one[0] == (x as int, y as int));
    }
    if put_pixel(buffer, x, y, window_width, rows, color) {
        Ok(())
    } else {
        Err(PixelOutOfBounds { x, y })
    }
}

/// Machine points over the mathematical integers.
pub open spec fn points_of(raw: Seq<(i128, i128)>) -> Seq<(int, int)> {
    Seq::new(raw.len(), |i: int| (raw[i].0 as int, raw[i].1 as int))
}

/// Draws the points of `pts` in order after the points of `done`, all of
/// which were drawn.
#[verifier::loop_isolation(false)]
pub(crate) fn continue_points(
    buffer: &mut [u32],
    pts: &[(i128, i128)],
    color: u32,
    window_width: usize,
    Ghost(before): Ghost<Seq<u32>>,
    Ghost(done): Ghost<Seq<(int, int)>>,
) -> (r: Result<(), PixelOutOfBounds>)
    requires
        old(buffer)@ == stroke(before, done, window_width as int, color),
        stroke_outcome(done, window_width as int, before.len() as int) is Ok,
    ensures
        final(buffer)@ == stroke(before, done + points_of(pts@), window_width as int, color),
        r == stroke_outcome(done + points_of(pts@), window_width as int, before.len() as int),
{
    let ghost more = points_of(pts@);
    let ghost whole = done + more;
    let mut m: usize = 0;
    proof {
        assert(done + more.take(0) =~= done);
    }
    while m < pts.len()
        invariant
            m <= pts.len(),
            buffer@ == stroke(before, done + more.take(m as int), window_width as int, color),
            stroke_outcome(done + more.take(m as int), window_width as int, before.len() as int) is Ok,
        decreases pts.len() - m,
    {
        let (x, y) = pts[m];
        let ghost so_far = done + more.take(m as int);
        proof {
            assert(so_far.push((x as int, y as int)) =~= done + more.take(m + 1));
            assert(whole.take(so_far.len() as int + 1) =~= done + more.take(m + 1));
        }
        let drawn = continue_point(buffer, x, y, color, window_width, Ghost(before), Ghost(so_far));
        if drawn.is_err() {
            proof {
                lemma_stroke_stuck(
                    before,
                    whole,
                    so_far.len() as int + 1,
                    window_width as int,
                    color,
                );
            }
            return drawn;
        }
        m += 1;
    }
    proof {
        assert(more.take(m as int) =~= more);
    }
    Ok(())
}

/// Draws the points of `points` in order and stops with a report at the
/// first that lies outside the buffer.
pub fn draw_points(
    buffer: &mut [u32],
    points: &[(i128, i128)],
    color: u32,
    window_width: usize,
) -> (r: Result<(), PixelOutOfBounds>)
    ensures
        final(buffer)@ == stroke(old(buffer)@, points_of(points@), window_width as int, color),
        r == stroke_outcome(points_of(points@), window_width as int, old(buffer)@.len() as int),
{
    let ghost before = buffer@;
    proof {
        lemma_stroke_nothing(before, window_width as int, color);
        assert(Seq::<(int, int)>::empty() + points_of(points@) =~= points_of(points@));
    }
    continue_points(buffer, points, color, window_width, Ghost(before), Ghost(Seq::empty()))
}

} // verus!
