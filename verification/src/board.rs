//! The checkerboard animation: one frame of a scrolling board of red and
//! black cells, rendered into a canvas.

use vstd::prelude::*;

verus! {

use crate::canvas::{grid_at, lemma_row_major_index, lemma_row_major_injective, Canvas};

/// The color of the board at `(x, y)` in frame `i`: red where the cell
/// parity is odd after scrolling both axes by `i`, black elsewhere.
pub open spec fn board_color(cell: int, i: int, x: int, y: int) -> [u8; 3] {
    if ((x + i) / cell + (y + i) / cell) % 2 == 1 {
        [255u8, 0u8, 0u8]
    } else {
        [0u8, 0u8, 0u8]
    }
}

/// One frame of the checkerboard animation: sixteen cells by nine, each
/// `cell` pixels square, scrolled by the frame number along both axes.
pub fn frame(cell: usize, i: usize) -> (c: Canvas)
    requires
        1 <= cell,
        16 * cell * (9 * cell) * 3 <= usize::MAX,
        2 * i + 25 * cell <= usize::MAX,
    ensures
        c.wf(),
        c.width() == 16 * cell,
        c.height() == 9 * cell,
        forall|x: int, y: int|
            0 <= x < c.width() && 0 <= y < c.height() ==> #[trigger] grid_at(
                c.grid(),
                c.width(),
                x,
                y,
            ) == board_color(cell as int, i as int, x, y),
{
    let w = 16 * cell;
    let h = 9 * cell;
    let mut c = Canvas::new(w, h, [0, 0, 0]);
    proof {
        assert forall|xx: int, yy: int| 0 <= xx < w && 0 <= yy < h implies #[trigger] grid_at(
            c.grid(),
            w as int,
            xx,
            yy,
        ) == [0u8, 0u8, 0u8] by {
            lemma_row_major_index(w as int, h as int, xx, yy);
        }
    }
    let mut y: usize = 0;
    while y < h
        invariant
            y <= h,
            c.wf(),
            c.width() == w,
            c.height() == h,
            cell >= 1,
            w == 16 * cell,
            h == 9 * cell,
            2 * i + 25 * cell <= usize::MAX,
            forall|xx: int, yy: int|
                0 <= xx < w && 0 <= yy < y ==> #[trigger] grid_at(c.grid(), w as int, xx, yy)
                    == board_color(cell as int, i as int, xx, yy),
            forall|xx: int, yy: int|
                0 <= xx < w && y <= yy < h ==> #[trigger] grid_at(c.grid(), w as int, xx, yy) == [
                    0u8,
                    0u8,
                    0u8,
                ],
        decreases h - y,
    {
        let mut x: usize = 0;
        while x < w
            invariant
                x <= w,
                y < h,
                c.wf(),
                c.width() == w,
                c.height() == h,
                cell >= 1,
                w == 16 * cell,
                h == 9 * cell,
                2 * i + 25 * cell <= usize::MAX,
                forall|xx: int, yy: int|
                    0 <= xx < w && 0 <= yy < y ==> #[trigger] grid_at(c.grid(), w as int, xx, yy)
                        == board_color(cell as int, i as int, xx, yy),
                forall|xx: int|
                    0 <= xx < x ==> #[trigger] grid_at(c.grid(), w as int, xx, y as int)
                        == board_color(cell as int, i as int, xx, y as int),
                forall|xx: int, yy: int|
                    0 <= xx < w && y < yy < h ==> #[trigger] grid_at(c.grid(), w as int, xx, yy)
                        == [0u8, 0u8, 0u8],
                forall|xx: int|
                    x <= xx < w ==> #[trigger] grid_at(c.grid(), w as int, xx, y as int) == [
                        0u8,
                        0u8,
                        0u8,
                    ],
            decreases w - x,
        {
            proof {
                assert(x + i + (y + i) <= usize::MAX) by (nonlinear_arith)
                    requires
                        x < 16 * cell,
                        y < 9 * cell,
                        2 * i + 25 * cell <= usize::MAX,
                        cell >= 1;
                vstd::arithmetic::div_mod::lemma_div_is_ordered_by_denominator(
                    (x + i) as int,
                    1,
                    cell as int,
                );
                vstd::arithmetic::div_mod::lemma_div_is_ordered_by_denominator(
                    (y + i) as int,
                    1,
                    cell as int,
                );
                c.lemma_grid_len();
            }
            let parity = ((x + i) / cell + (y + i) / cell) % 2;
            let ghost pre = c.grid();
            if parity == 1 {
                let _ = c.pixel_mut(x, y, [0xFF, 0x00, 0x00]);
            }
            proof {
                lemma_row_major_index(w as int, h as int, x as int, y as int);
                assert(parity as int == ((x + i) as int / (cell as int) + (y + i) as int / (
                cell as int)) % 2);
                if parity == 1 {
                    assert(c.grid() == pre.update(y * (w as int) + x, [255u8, 0u8, 0u8]));
                    assert(c.grid()[y * (w as int) + x] == [255u8, 0u8, 0u8]);
                }
                assert(grid_at(c.grid(), w as int, x as int, y as int) == board_color(
                    cell as int,
                    i as int,
                    x as int,
                    y as int,
                ));
                assert forall|xx: int, yy: int|
                    0 <= xx < w && 0 <= yy < h && !(xx == x && yy == y) implies #[trigger] grid_at(
                    c.grid(),
                    w as int,
                    xx,
                    yy,
                ) == grid_at(pre, w as int, xx, yy) by {
                    lemma_row_major_index(w as int, h as int, xx, yy);
                    if parity == 1 {
                        assert(yy * w + xx != y * w + x) by {
                            if yy * w + xx == y * w + x {
                                lemma_row_major_injective(w as int, xx, yy, x as int, y as int);
                            }
                        }
                        assert(c.grid()[yy * (w as int) + xx] == pre[yy * (w as int) + xx]);
                    }
                }
            }
            x = x + 1;
        }
        y = y + 1;
    }
    c
}

} // verus!
