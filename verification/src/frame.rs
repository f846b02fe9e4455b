//! The frame buffer model and the single pixel write that every primitive goes through.

use vstd::arithmetic::div_mod::{
    lemma_div_pos_is_pos, lemma_fundamental_div_mod, lemma_fundamental_div_mod_converse,
    lemma_mod_pos_bound,
};
use crate::report::PixelOutOfBounds;
use vstd::prelude::*;

verus! {

/// `(x, y)` names a cell of a `width` x `height` grid stored row by row in `len` cells.
pub open spec fn in_frame(x: int, y: int, width: int, height: int, len: int) -> bool {
    &&& 0 <= x < width
    &&& 0 <= y < height
    &&& y * width + x < len
}

/// `(x, y)` names a cell of a buffer of `len` cells whose rows are `width` wide.
pub open spec fn in_buffer(x: int, y: int, width: int, len: int) -> bool {
    &&& 0 <= x < width
    &&& 0 <= y
    &&& y * width + x < len
}

/// The cell `i` of a buffer with rows `width` wide shows a point of `shape`
/// in one of the first `height` rows.
pub open spec fn covers(shape: Set<(int, int)>, width: int, height: int, i: int) -> bool {
    &&& width > 0
    &&& i / width < height
    &&& shape.contains((i % width, i / width))
}

/// The buffer `buf` after every point of `shape` that lies in the frame has
/// been given `color`. Nothing else changes, and the length stays.
pub open spec fn paint(
    buf: Seq<u32>,
    width: int,
    height: int,
    color: u32,
    shape: Set<(int, int)>,
) -> Seq<u32> {
    Seq::new(
        buf.len(),
        |i: int|
            if covers(shape, width, height, i) {
                color
            } else {
                buf[i]
            },
    )
}

/// Writes `color` at `(x, y)` when the point lies in the frame and in the
/// buffer, and leaves the buffer alone otherwise.
pub fn put_pixel(
    buffer: &mut [u32],
    x: i128,
    y: i128,
    width: usize,
    height: usize,
    color: u32,
) -> (written: bool)
    ensures
        written == in_frame(x as int, y as int, width as int, height as int, old(buffer)@.len() as int),
        written ==> final(buffer)@ == old(buffer)@.update(y * width + x, color),
        !written ==> final(buffer)@ == old(buffer)@,
        final(buffer)@ == paint(
            old(buffer)@,
            width as int,
            height as int,
            color,
            set![(x as int, y as int)],
        ),
{
    proof {
        lemma_paint_empty(buffer@, width as int, height as int, color);
        lemma_paint_insert(
            buffer@,
            width as int,
            height as int,
            color,
            Set::empty(),
            x as int,
            y as int,
        );
        assert(set![(x as int, y as int)] =~= Set::<(int, int)>::empty().insert((x as int, y as int)));
    }
    if x < 0 || y < 0 || x >= width as i128 || y >= height as i128 {
        return false;
    }
    assert(y * width <= 0xffff_ffff_ffff_ffff * 0xffff_ffff_ffff_ffff) by (nonlinear_arith)
        requires
            0 <= y <= 0xffff_ffff_ffff_ffff,
            0 <= width <= 0xffff_ffff_ffff_ffff,
    ;
    let index: u128 = (y as u128) * (width as u128) + (x as u128);
    if index < buffer.len() as u128 {
        buffer[index as usize] = color;
        true
    } else {
        false
    }
}

/// Writes `color` at `(x, y)` of a buffer whose rows are `window_width` wide,
/// or reports the pixel when it lies outside the buffer.
pub fn draw_pixel(
    buffer: &mut [u32],
    x: usize,
    y: usize,
    color: u32,
    window_width: usize,
) -> (r: Result<(), PixelOutOfBounds>)
    ensures
        r is Ok <==> in_buffer(x as int, y as int, window_width as int, old(buffer)@.len() as int),
        r is Ok ==> final(buffer)@ == old(buffer)@.update(y * window_width + x, color),
        r is Err ==> final(buffer)@ == old(buffer)@ && r == Err::<(), PixelOutOfBounds>(
            PixelOutOfBounds { x: x as i128, y: y as i128 },
        ),
{
    let rows: usize = buffer.len();
    proof {
        lemma_rows_never_bind(x as int, y as int, window_width as int, rows as int);
    }
    if put_pixel(buffer, x as i128, y as i128, window_width, rows, color) {
        Ok(())
    } else {
        Err(PixelOutOfBounds { x: x as i128, y: y as i128 })
    }
}

/// A point in the frame sits in the cell `y * width + x`, and in no other.
pub proof fn lemma_cell_of_point(x: int, y: int, width: int, i: int)
    requires
        0 <= x < width,
    ensures
        (i % width == x && i / width == y) <==> i == y * width + x,
{
    if i == y * width + x {
        lemma_fundamental_div_mod_converse(i, width, y, x);
    }
    if i % width == x && i / width == y {
        lemma_fundamental_div_mod(i, width);
        assert(width * y == y * width) by (nonlinear_arith);
    }
}

/// Painting one more point is one guarded write.
pub proof fn lemma_paint_insert(
    buf: Seq<u32>,
    width: int,
    height: int,
    color: u32,
    shape: Set<(int, int)>,
    x: int,
    y: int,
)
    ensures
        in_frame(x, y, width, height, buf.len() as int) ==> paint(
            buf,
            width,
            height,
            color,
            shape.insert((x, y)),
        ) == paint(buf, width, height, color, shape).update(y * width + x, color),
        !in_frame(x, y, width, height, buf.len() as int) ==> paint(
            buf,
            width,
            height,
            color,
            shape.insert((x, y)),
        ) == paint(buf, width, height, color, shape),
{
    let before = paint(buf, width, height, color, shape);
    let after = paint(buf, width, height, color, shape.insert((x, y)));
    let target = if in_frame(x, y, width, height, buf.len() as int) {
        before.update(y * width + x, color)
    } else {
        before
    };
    assert forall|i: int| 0 <= i < buf.len() implies after[i] == target[i] by {
        if width > 0 {
            lemma_fundamental_div_mod(i, width);
            lemma_mod_pos_bound(i, width);
            lemma_div_pos_is_pos(i, width);
            assert(width * (i / width) == (i / width) * width) by (nonlinear_arith);
            if 0 <= x < width {
                lemma_cell_of_point(x, y, width, i);
            }
        }
    }
    assert(after =~= target);
}

/// Painting nothing changes nothing.
pub proof fn lemma_paint_empty(buf: Seq<u32>, width: int, height: int, color: u32)
    ensures
        paint(buf, width, height, color, Set::empty()) == buf,
{
    assert(paint(buf, width, height, color, Set::empty()) =~= buf);
}

/// Painting one shape and then another, in one colour, paints their union.
pub proof fn lemma_paint_union(
    buf: Seq<u32>,
    width: int,
    height: int,
    color: u32,
    first: Set<(int, int)>,
    second: Set<(int, int)>,
)
    ensures
        paint(paint(buf, width, height, color, first), width, height, color, second) == paint(
            buf,
            width,
            height,
            color,
            first.union(second),
        ),
{
    assert(paint(paint(buf, width, height, color, first), width, height, color, second) =~= paint(
        buf,
        width,
        height,
        color,
        first.union(second),
    ));
}

/// No painting reaches a cell outside the frame: the length stays, and a cell
/// that changed has an index below `width * height`, lies in one of the first
/// `width` columns and of the first `height` rows, shows a point of the shape
/// and holds the colour.
pub proof fn lemma_paint_confined(
    buf: Seq<u32>,
    width: int,
    height: int,
    color: u32,
    shape: Set<(int, int)>,
)
    ensures
        paint(buf, width, height, color, shape).len() == buf.len(),
        forall|i: int|
            0 <= i < buf.len() && #[trigger] paint(buf, width, height, color, shape)[i] != buf[i]
                ==> {
                &&& width > 0
                &&& i < width * height
                &&& 0 <= i % width < width
                &&& 0 <= i / width < height
                &&& i == (i / width) * width + i % width
                &&& shape.contains((i % width, i / width))
                &&& paint(buf, width, height, color, shape)[i] == color
            },
{
    assert forall|i: int|
        0 <= i < buf.len() && #[trigger] paint(buf, width, height, color, shape)[i]
            != buf[i] implies {
        &&& width > 0
        &&& i < width * height
        &&& 0 <= i % width < width
        &&& 0 <= i / width < height
        &&& i == (i / width) * width + i % width
        &&& shape.contains((i % width, i / width))
        &&& paint(buf, width, height, color, shape)[i] == color
    } by {
        lemma_fundamental_div_mod(i, width);
        lemma_mod_pos_bound(i, width);
        lemma_div_pos_is_pos(i, width);
        let row = i / width;
        assert(width * row == row * width) by (nonlinear_arith);
        assert(row * width + width <= height * width) by (nonlinear_arith)
            requires
                0 <= row < height,
                width > 0,
        ;
        assert(height * width == width * height) by (nonlinear_arith);
    }
}

/// A buffer of `len` cells never holds a row numbered `len` or more, so taking
/// `len` for the height bounds nothing.
pub proof fn lemma_rows_never_bind(x: int, y: int, width: int, len: int)
    ensures
        in_buffer(x, y, width, len) <==> in_frame(x, y, width, len, len),
{
    if in_buffer(x, y, width, len) {
        assert(y * width >= y) by (nonlinear_arith)
            requires
                y >= 0,
                width >= 1,
        ;
    }
}

} // verus!
