//! One frame of a wireframe scene, from vertices that were already mapped to
//! the screen: a marker on every vertex and a line along every edge.

use crate::frame::{lemma_paint_empty, lemma_paint_union, paint};
use crate::line::{bresenham_line, line_trace};
use crate::marker::Object;
use crate::report::PixelOutOfBounds;
use crate::segment::{as_signed, closed_points, draw_line, fits_segment};
use crate::trace::{stroke, stroke_outcome};
use vstd::prelude::*;

verus! {

/// Every index of every cycle names one of `vertices` vertices.
pub open spec fn cycles_in_range(cycles: Seq<Vec<usize>>, vertices: int) -> bool {
    forall|c: int, i: int|
        0 <= c < cycles.len() && 0 <= i < cycles[c]@.len() ==> (#[trigger] cycles[c]@[i])
            < vertices
}

/// The points of edge `e` of a cycle: the line from the vertex at place `e`
/// to the vertex at the next place, the last place being followed by the first.
pub open spec fn edge_points(points: Seq<(usize, usize)>, cycle: Seq<usize>, e: int) -> Set<
    (int, int),
> {
    let from = points[cycle[e] as int];
    let to = points[cycle[(e + 1) % (cycle.len() as int)] as int];
    line_trace(from.0 as int, from.1 as int, to.0 as int, to.1 as int).to_set()
}

/// The points of the first `n` edges of a cycle.
pub open spec fn cycle_points(points: Seq<(usize, usize)>, cycle: Seq<usize>, n: int) -> Set<
    (int, int),
> {
    Set::new(|p: (int, int)| exists|e: int| 0 <= e < n && edge_points(points, cycle, e).contains(p))
}

/// The points of all edges of the first `n` cycles.
pub open spec fn edges_points(points: Seq<(usize, usize)>, cycles: Seq<Vec<usize>>, n: int) -> Set<
    (int, int),
> {
    Set::new(
        |p: (int, int)|
            exists|c: int|
                0 <= c < n && cycle_points(points, cycles[c]@, cycles[c]@.len() as int).contains(p),
    )
}

/// The points of the markers on the first `n` vertices.
pub open spec fn markers_points(points: Seq<(usize, usize)>, marker: Object, n: int) -> Set<
    (int, int),
> {
    Set::new(
        |p: (int, int)|
            exists|v: int|
                0 <= v < n && marker.shape(points[v].0 as int, points[v].1 as int).contains(p),
    )
}

/// Whether every index of every cycle names one of `vertices` vertices.
#[verifier::loop_isolation(false)]
pub fn mesh_in_range(cycles: &[Vec<usize>], vertices: usize) -> (ok: bool)
    ensures
        ok == cycles_in_range(cycles@, vertices as int),
{
    let mut c: usize = 0;
    while c < cycles.len()
        invariant
            c <= cycles.len(),
            forall|d: int, i: int|
                0 <= d < c && 0 <= i < cycles@[d]@.len() ==> (#[trigger] cycles@[d]@[i]) < vertices,
        decreases cycles.len() - c,
    {
        let cycle = &cycles[c];
        let mut i: usize = 0;
        while i < cycle.len()
            invariant
                i <= cycle.len(),
                forall|k: int| 0 <= k < i ==> (#[trigger] cycle@[k]) < vertices,
            decreases cycle.len() - i,
        {
            if cycle[i] >= vertices {
                return false;
            }
            i += 1;
        }
        c += 1;
    }
    true
}

/// Draws the closed polyline through the vertices that `cycle` names, each
/// edge clipped to the frame.
#[verifier::loop_isolation(false)]
pub fn draw_cycle(
    buffer: &mut [u32],
    points: &[(usize, usize)],
    cycle: &[usize],
    width: usize,
    height: usize,
    color: u32,
)
    requires
        forall|i: int| 0 <= i < cycle@.len() ==> (#[trigger] cycle@[i]) < points@.len(),
    ensures
        final(buffer)@ == paint(
            old(buffer)@,
            width as int,
            height as int,
            color,
            cycle_points(points@, cycle@, cycle@.len() as int),
        ),
{
    let ghost before = buffer@;
    let mut e: usize = 0;
    proof {
        assert(cycle_points(points@, cycle@, 0) =~= Set::<(int, int)>::empty());
        lemma_paint_empty(before, width as int, height as int, color);
    }
    while e < cycle.len()
        invariant
            e <= cycle.len(),
            buffer@ == paint(
                before,
                width as int,
                height as int,
                color,
                cycle_points(points@, cycle@, e as int),
            ),
        decreases cycle.len() - e,
    {
        let next: usize = (e + 1) % cycle.len();
        let from = points[cycle[e]];
        let to = points[cycle[next]];
        proof {
            let so_far = cycle_points(points@, cycle@, e as int);
            let edge = edge_points(points@, cycle@, e as int);
            lemma_paint_union(before, width as int, height as int, color, so_far, edge);
            assert(cycle_points(points@, cycle@, e + 1) =~= so_far.union(edge));
        }
        bresenham_line(buffer, from.0, from.1, to.0, to.1, width, height, color);
        e += 1;
    }
}

/// Clears the buffer to `background` and draws `marker` in `color` on every
/// vertex, clipped to the frame.
#[verifier::loop_isolation(false)]
pub fn draw_markers(
    buffer: &mut [u32],
    points: &[(usize, usize)],
    marker: Object,
    width: usize,
    height: usize,
    color: u32,
    background: u32,
)
    ensures
        final(buffer)@ == paint(
            Seq::new(old(buffer)@.len(), |i: int| background),
            width as int,
            height as int,
            color,
            markers_points(points@, marker, points@.len() as int),
        ),
{
    let ghost blank = Seq::new(buffer@.len(), |i: int| background);
    let mut i: usize = 0;
    while i < buffer.len()
        invariant
            i <= buffer.len(),
            buffer@.len() == blank.len(),
            forall|k: int| 0 <= k < i ==> buffer@[k] == background,
        decreases buffer.len() - i,
    {
        buffer[i] = background;
        i += 1;
    }
    proof {
        assert(buffer@ =~= blank);
        assert(markers_points(points@, marker, 0) =~= Set::<(int, int)>::empty());
        lemma_paint_empty(blank, width as int, height as int, color);
    }
    let mut v: usize = 0;
    while v < points.len()
        invariant
            v <= points.len(),
            buffer@ == paint(
                blank,
                width as int,
                height as int,
                color,
                markers_points(points@, marker, v as int),
            ),
        decreases points.len() - v,
    {
        let at = points[v];
        proof {
            let so_far = markers_points(points@, marker, v as int);
            let one = marker.shape(at.0 as int, at.1 as int);
            lemma_paint_union(blank, width as int, height as int, color, so_far, one);
            assert(markers_points(points@, marker, v + 1) =~= so_far.union(one));
        }
        marker.draw(buffer, at.0, at.1, width, height, color);
        v += 1;
    }
}

/// Draws one frame: clears the buffer to `background`, draws `marker` on
/// every vertex and a line along every edge of every cycle, all in `color`
/// and clipped to the frame.
#[verifier::loop_isolation(false)]
pub fn draw_wireframe(
    buffer: &mut [u32],
    points: &[(usize, usize)],
    cycles: &[Vec<usize>],
    marker: Object,
    width: usize,
    height: usize,
    color: u32,
    background: u32,
)
    requires
        cycles_in_range(cycles@, points@.len() as int),
    ensures
        final(buffer)@ == paint(
            Seq::new(old(buffer)@.len(), |i: int| background),
            width as int,
            height as int,
            color,
            markers_points(points@, marker, points@.len() as int).union(
                edges_points(points@, cycles@, cycles@.len() as int),
            ),
        ),
{
    let ghost blank = Seq::new(buffer@.len(), |i: int| background);
    draw_markers(buffer, points, marker, width, height, color, background);
    let ghost markers = markers_points(points@, marker, points@.len() as int);
    proof {
        assert(markers.union(edges_points(points@, cycles@, 0)) =~= markers);
    }
    let mut c: usize = 0;
    while c < cycles.len()
        invariant
            c <= cycles.len(),
            buffer@ == paint(
                blank,
                width as int,
                height as int,
                color,
                markers.union(edges_points(points@, cycles@, c as int)),
            ),
        decreases cycles.len() - c,
    {
        let cycle = &cycles[c];
        proof {
            let so_far = markers.union(edges_points(points@, cycles@, c as int));
            let one = cycle_points(points@, cycle@, cycle@.len() as int);
            lemma_paint_union(blank, width as int, height as int, color, so_far, one);
            assert(markers.union(edges_points(points@, cycles@, c + 1)) =~= so_far.union(one));
            assert forall|k: int| 0 <= k < cycle@.len() implies (#[trigger] cycle@[k])
                < points@.len() by {
                assert(cycles@[c as int]@[k] < points@.len());
            }
        }
        draw_cycle(buffer, points, cycle.as_slice(), width, height, color);
        c += 1;
    }
}

/// The points of edge `e` of a cycle as the reporting tracer draws it, both
/// ends with it.
pub open spec fn edge_line(points: Seq<(usize, usize)>, cycle: Seq<usize>, e: int) -> Seq<
    (int, int),
> {
    let from = points[cycle[e] as int];
    let to = points[cycle[(e + 1) % (cycle.len() as int)] as int];
    closed_points(as_signed(from.0), as_signed(from.1), as_signed(to.0), as_signed(to.1))
}

/// The tracer can take every edge of the cycle: see `fits_segment`.
pub open spec fn cycle_fits(points: Seq<(usize, usize)>, cycle: Seq<usize>) -> bool {
    forall|e: int|
        #![trigger cycle[e]]
        0 <= e < cycle.len() ==> {
            let from = points[cycle[e] as int];
            let to = points[cycle[(e + 1) % (cycle.len() as int)] as int];
            fits_segment(as_signed(from.0), as_signed(from.1), as_signed(to.0), as_signed(to.1))
        }
}

/// The tracer can take every edge of every cycle.
pub open spec fn cycles_fit(points: Seq<(usize, usize)>, cycles: Seq<Vec<usize>>) -> bool {
    forall|c: int| 0 <= c < cycles.len() ==> cycle_fits(points, (#[trigger] cycles[c])@)
}

/// The buffer after the first `n` edges of a cycle were drawn as reporting
/// lines: each edge stops at its first point outside the buffer, and the
/// next edge is drawn all the same.
pub open spec fn cycle_strokes(
    buf: Seq<u32>,
    points: Seq<(usize, usize)>,
    cycle: Seq<usize>,
    n: nat,
    width: int,
    color: u32,
) -> Seq<u32>
    decreases n,
{
    if n == 0 {
        buf
    } else {
        stroke(
            cycle_strokes(buf, points, cycle, (n - 1) as nat, width, color),
            edge_line(points, cycle, n - 1),
            width,
            color,
        )
    }
}

/// What drawing the first `n` edges of a cycle reports: the report of the
/// first edge that stopped early, and success when none did.
pub open spec fn cycle_report(
    points: Seq<(usize, usize)>,
    cycle: Seq<usize>,
    n: nat,
    width: int,
    len: int,
) -> Result<(), PixelOutOfBounds>
    decreases n,
{
    if n == 0 {
        Ok(())
    } else {
        let earlier = cycle_report(points, cycle, (n - 1) as nat, width, len);
        if earlier is Err {
            earlier
        } else {
            stroke_outcome(edge_line(points, cycle, n - 1), width, len)
        }
    }
}

/// The buffer after all edges of the first `n` cycles were drawn as
/// reporting lines.
pub open spec fn mesh_strokes(
    buf: Seq<u32>,
    points: Seq<(usize, usize)>,
    cycles: Seq<Vec<usize>>,
    n: nat,
    width: int,
    color: u32,
) -> Seq<u32>
    decreases n,
{
    if n == 0 {
        buf
    } else {
        cycle_strokes(
            mesh_strokes(buf, points, cycles, (n - 1) as nat, width, color),
            points,
            cycles[n - 1]@,
            cycles[n - 1]@.len(),
            width,
            color,
        )
    }
}

/// What drawing all edges of the first `n` cycles reports: the report of the
/// first edge that stopped early, and success when none did.
pub open spec fn mesh_report(
    points: Seq<(usize, usize)>,
    cycles: Seq<Vec<usize>>,
    n: nat,
    width: int,
    len: int,
) -> Result<(), PixelOutOfBounds>
    decreases n,
{
    if n == 0 {
        Ok(())
    } else {
        let earlier = mesh_report(points, cycles, (n - 1) as nat, width, len);
        if earlier is Err {
            earlier
        } else {
            cycle_report(points, cycles[n - 1]@, cycles[n - 1]@.len(), width, len)
        }
    }
}

/// Drawing the edges of a cycle keeps the length of the buffer.
pub proof fn lemma_cycle_strokes_length(
    buf: Seq<u32>,
    points: Seq<(usize, usize)>,
    cycle: Seq<usize>,
    n: nat,
    width: int,
    color: u32,
)
    ensures
        cycle_strokes(buf, points, cycle, n, width, color).len() == buf.len(),
    decreases n,
{
    if n > 0 {
        lemma_cycle_strokes_length(buf, points, cycle, (n - 1) as nat, width, color);
    }
}

/// Drawing the edges of a mesh keeps the length of the buffer.
pub proof fn lemma_mesh_strokes_length(
    buf: Seq<u32>,
    points: Seq<(usize, usize)>,
    cycles: Seq<Vec<usize>>,
    n: nat,
    width: int,
    color: u32,
)
    ensures
        mesh_strokes(buf, points, cycles, n, width, color).len() == buf.len(),
    decreases n,
{
    if n > 0 {
        lemma_mesh_strokes_length(buf, points, cycles, (n - 1) as nat, width, color);
        lemma_cycle_strokes_length(
            mesh_strokes(buf, points, cycles, (n - 1) as nat, width, color),
            points,
            cycles[n - 1]@,
            cycles[n - 1]@.len(),
            width,
            color,
        );
    }
}

/// Whether the tracer can take the segment between two screen points.
fn edge_fits(from: (usize, usize), to: (usize, usize)) -> (ok: bool)
    ensures
        ok == fits_segment(as_signed(from.0), as_signed(from.1), as_signed(to.0), as_signed(to.1)),
{
    let x0 = #[verifier::truncate]
    (from.0 as isize) as i128;
    let y0 = #[verifier::truncate]
    (from.1 as isize) as i128;
    let x1 = #[verifier::truncate]
    (to.0 as isize) as i128;
    let y1 = #[verifier::truncate]
    (to.1 as isize) as i128;
    let top = isize::MAX as i128;
    -top <= x0 && -top <= y0 && -top <= x1 && -top <= y1 && -top <= x1 - x0 && x1 - x0 <= top
        && -top <= y1 - y0 && y1 - y0 <= top
}

/// Whether the tracer can take every edge of every cycle.
#[verifier::loop_isolation(false)]
pub fn mesh_fits(points: &[(usize, usize)], cycles: &[Vec<usize>]) -> (ok: bool)
    requires
        cycles_in_range(cycles@, points@.len() as int),
    ensures
        ok == cycles_fit(points@, cycles@),
{
    let mut c: usize = 0;
    while c < cycles.len()
        invariant
            c <= cycles.len(),
            forall|d: int| 0 <= d < c ==> cycle_fits(points@, (#[trigger] cycles@[d])@),
        decreases cycles.len() - c,
    {
        let cycle = &cycles[c];
        let mut e: usize = 0;
        while e < cycle.len()
            invariant
                e <= cycle.len(),
                forall|k: int|
                    #![trigger cycle@[k]]
                    0 <= k < e ==> {
                        let from = points@[cycle@[k] as int];
                        let to = points@[cycle@[(k + 1) % (cycle@.len() as int)] as int];
                        fits_segment(
                            as_signed(from.0),
                            as_signed(from.1),
                            as_signed(to.0),
                            as_signed(to.1),
                        )
                    },
            decreases cycle.len() - e,
        {
            let next: usize = (e + 1) % cycle.len();
            proof {
                assert(cycles@[c as int]@[e as int] < points@.len());
                assert(cycles@[c as int]@[next as int] < points@.len());
            }
            if !edge_fits(points[cycle[e]], points[cycle[next]]) {
                proof {
                    let witness = cycle@[e as int];
                    assert(!cycle_fits(points@, cycles@[c as int]@));
                }
                return false;
            }
            e += 1;
        }
        c += 1;
    }
    true
}

/// Draws the closed polyline through the vertices that `cycle` names, each
/// edge as a reporting line: an edge stops at its first point outside the
/// buffer, the next edge is drawn all the same, and the first report is
/// handed back.
#[verifier::loop_isolation(false)]
pub fn draw_cycle_lines(
    buffer: &mut [u32],
    points: &[(usize, usize)],
    cycle: &[usize],
    color: u32,
    window_width: usize,
) -> (r: Result<(), PixelOutOfBounds>)
    requires
        forall|i: int| 0 <= i < cycle@.len() ==> (#[trigger] cycle@[i]) < points@.len(),
        cycle_fits(points@, cycle@),
    ensures
        final(buffer)@ == cycle_strokes(
            old(buffer)@,
            points@,
            cycle@,
            cycle@.len(),
            window_width as int,
            color,
        ),
        r == cycle_report(
            points@,
            cycle@,
            cycle@.len(),
            window_width as int,
            old(buffer)@.len() as int,
        ),
{
    let ghost before = buffer@;
    let mut first: Result<(), PixelOutOfBounds> = Ok(());
    let mut e: usize = 0;
    while e < cycle.len()
        invariant
            e <= cycle.len(),
            buffer@ == cycle_strokes(before, points@, cycle@, e as nat, window_width as int, color),
            first == cycle_report(
                points@,
                cycle@,
                e as nat,
                window_width as int,
                before.len() as int,
            ),
        decreases cycle.len() - e,
    {
        let next: usize = (e + 1) % cycle.len();
        let from = points[cycle[e]];
        let to = points[cycle[next]];
        proof {
            let witness = cycle@[e as int];
            lemma_cycle_strokes_length(
                before,
                points@,
                cycle@,
                e as nat,
                window_width as int,
                color,
            );
        }
        let drawn = draw_line(buffer, from.0, from.1, to.0, to.1, color, window_width);
        if first.is_ok() {
            first = drawn;
        }
        e += 1;
    }
    first
}

/// Draws one frame with reporting lines: clears the buffer to `background`,
/// draws `marker` on every vertex, clipped to the frame, and then every edge
/// of every cycle as `draw_cycle_lines` does. The first report is handed back.
#[verifier::loop_isolation(false)]
pub fn draw_wireframe_lines(
    buffer: &mut [u32],
    points: &[(usize, usize)],
    cycles: &[Vec<usize>],
    marker: Object,
    width: usize,
    height: usize,
    color: u32,
    background: u32,
) -> (r: Result<(), PixelOutOfBounds>)
    requires
        cycles_in_range(cycles@, points@.len() as int),
        cycles_fit(points@, cycles@),
    ensures
        final(buffer)@ == mesh_strokes(
            paint(
                Seq::new(old(buffer)@.len(), |i: int| background),
                width as int,
                height as int,
                color,
                markers_points(points@, marker, points@.len() as int),
            ),
            points@,
            cycles@,
            cycles@.len(),
            width as int,
            color,
        ),
        r == mesh_report(
            points@,
            cycles@,
            cycles@.len(),
            width as int,
            old(buffer)@.len() as int,
        ),
{
    let ghost len = buffer@.len();
    draw_markers(buffer, points, marker, width, height, color, background);
    let ghost marked = buffer@;
    let mut first: Result<(), PixelOutOfBounds> = Ok(());
    let mut c: usize = 0;
    while c < cycles.len()
        invariant
            c <= cycles.len(),
            marked.len() == len,
            buffer@ == mesh_strokes(marked, points@, cycles@, c as nat, width as int, color),
            first == mesh_report(points@, cycles@, c as nat, width as int, len as int),
        decreases cycles.len() - c,
    {
        let cycle = &cycles[c];
        proof {
            lemma_mesh_strokes_length(marked, points@, cycles@, c as nat, width as int, color);
            assert forall|k: int| 0 <= k < cycle@.len() implies (#[trigger] cycle@[k])
                < points@.len() by {
                assert(cycles@[c as int]@[k] < points@.len());
            }
            assert(cycle_fits(points@, cycles@[c as int]@));
        }
        let drawn = draw_cycle_lines(buffer, points, cycle.as_slice(), color, width);
        if first.is_ok() {
            first = drawn;
        }
        c += 1;
    }
    first
}

} // verus!
