//! What the window shows, told by its pixels: the picture in its middle, every part of it
//! in its place, and background round it.
use vstd::prelude::*;

use crate::draw::{
    extent, interpolated_size, is_drawable, law_interpolation_is_bounded, margin, window_image,
    Scaling,
};
use crate::reduce::{Image, Tiny};
use crate::scale::{enlarged, mixed_across, mixed_at, settled, tap_at, Tap};

verus! {

/// The size at which a picture that would fit in `fit` is shown along an axis of `b`
/// pixels is `fit` itself wherever that is one pixel at least and no more than there are.
pub proof fn law_picture_is_shown_at_its_fit(fit: int, b: int)
    requires
        b >= 1,
    ensures
        1 <= fit <= b ==> extent(fit, b) == fit,
        fit < 1 ==> extent(fit, b) == 1,
        fit > b ==> extent(fit, b) == b,
        2 * margin(fit, b) <= b - extent(fit, b) <= 2 * margin(fit, b) + 1,
{
}

/// A picture is interpolated at the size at which it is shown, up to 1024 columns; a wider
/// one to 1024 columns, and the number of rows nearest to its proportions, one at least.
pub proof fn law_size_of_interpolation(dw: int, dh: int)
    requires
        dw >= 1,
        dh >= 1,
    ensures
        ({
            let (mw, mh) = interpolated_size(dw, dh);
            &&& dw <= 1024 ==> mw == dw && mh == dh
            &&& dw > 1024 ==> {
                &&& mw == 1024
                &&& mh >= 1
                &&& mh * dw <= dh * 1024 + dw / 2 || mh == 1
                &&& dh * 1024 + dw / 2 < (mh + 1) * dw
            }
        }),
{
    let num = dh * 1024 + dw / 2;
    let rows = num / dw;
    assert(rows * dw <= num < (rows + 1) * dw) by (nonlinear_arith)
        requires
            0 < dw,
            rows == num / dw,
    ;
    assert(rows <= 1 ==> (rows + 1) * dw <= (1 + 1) * dw) by (nonlinear_arith)
        requires
            0 < dw,
    ;
}

/// A picture that would fit in `fit` pixels is shown at `d` along an axis of `b`: at `fit`,
/// but at one pixel at least and no more than there are.
pub open spec fn is_shown_at(fit: int, b: int, d: int) -> bool {
    &&& 1 <= d <= b
    &&& fit == d || (fit < 1 && d == 1) || (fit > b && d == b)
}

proof fn lemma_window_place(x: int, y: int, ox: int, oy: int, bw: int, bh: int)
    by (nonlinear_arith)
    requires
        0 <= ox + x < bw,
        0 <= oy + y < bh,
    ensures
        ({
            let j = (oy + y) * bw + (ox + x);
            &&& 0 <= j < bw * bh
            &&& j % bw == ox + x
            &&& j / bw == oy + y
        }),
{
    let (row, col) = (oy + y, ox + x);
    assert(0 <= row * bw);
    assert(row * bw <= (bh - 1) * bw);
    assert((bh - 1) * bw + bw == bw * bh);
}

/// The picture is shown in place, however wide: the window's pixel `x` columns and `y` rows
/// into the picture is the interpolated pixel at the same part of the way, across and down.
pub proof fn law_window_shows_the_picture_in_place(
    image: Image,
    scaling: Scaling,
    bw: int,
    bh: int,
    dw: int,
    dh: int,
    mw: int,
    mh: int,
    x: int,
    y: int,
)
    requires
        is_shown_at(scaling.fit_w as int, bw, dw),
        is_shown_at(scaling.fit_h as int, bh, dh),
        dw <= 1024 ==> mw == dw && mh == dh,
        dw > 1024 ==> mw == 1024 && mh == if (dh * 1024 + dw / 2) / dw < 1 {
            1
        } else {
            (dh * 1024 + dw / 2) / dw
        },
        0 <= x < dw,
        0 <= y < dh,
    ensures
        ({
            let (ox, oy) = ((bw - dw) / 2, (bh - dh) / 2);
            let (sx, sy) = (x * mw / dw, y * mh / dh);
            &&& window_image(image, scaling, bw, bh).len() == bw * bh
            &&& 0 <= sx < mw
            &&& 0 <= sy < mh
            &&& window_image(image, scaling, bw, bh)[(oy + y) * bw + (ox + x)] == enlarged(
                image,
                scaling.xmap@,
                scaling.ymap@,
            )[sy * mw + sx]
        }),
{
    let (ox, oy) = ((bw - dw) / 2, (bh - dh) / 2);
    lemma_window_place(x, y, ox, oy, bw, bh);
    law_interpolation_is_bounded(dw, dh);
    assert(0 <= x * mw / dw < mw && 0 <= y * mh / dh < mh) by (nonlinear_arith)
        requires
            0 <= x < dw,
            0 <= y < dh,
            1 <= mw,
            1 <= mh,
    {
        assert(0 <= x * mw < dw * mw);
        assert(0 <= y * mh < dh * mh);
    }
}

/// The corners of the picture are its corners in the window, however wide it is shown.
pub proof fn law_corners_are_shown_in_the_corners(
    image: Image,
    scaling: Scaling,
    bw: int,
    bh: int,
    dw: int,
    dh: int,
)
    requires
        is_shown_at(scaling.fit_w as int, bw, dw),
        is_shown_at(scaling.fit_h as int, bh, dh),
        scaling.xmap@.len() == interpolated_size(dw, dh).0,
        scaling.ymap@.len() == interpolated_size(dw, dh).1,
    ensures
        ({
            let (ox, oy) = ((bw - dw) / 2, (bh - dh) / 2);
            let (mw, mh) = (scaling.xmap@.len() as int, scaling.ymap@.len() as int);
            let window = window_image(image, scaling, bw, bh);
            let mid = enlarged(image, scaling.xmap@, scaling.ymap@);
            &&& window[oy * bw + ox] == mid[0]
            &&& window[oy * bw + (ox + dw - 1)] == mid[mw - 1]
            &&& window[(oy + dh - 1) * bw + ox] == mid[(mh - 1) * mw]
            &&& window[(oy + dh - 1) * bw + (ox + dw - 1)] == mid[(mh - 1) * mw + mw - 1]
        }),
{
    let (mw, mh) = interpolated_size(dw, dh);
    law_interpolation_is_bounded(dw, dh);
    law_last_is_last(dw, mw);
    law_last_is_last(dh, mh);
    assert(0 * mw == 0 && 0 * mh == 0) by (nonlinear_arith);
    assert(0int / dw == 0 && 0int / dh == 0) by (nonlinear_arith)
        requires
            dw > 0,
            dh > 0,
    ;
    law_window_shows_the_picture_in_place(image, scaling, bw, bh, dw, dh, mw, mh, 0, 0);
    law_window_shows_the_picture_in_place(image, scaling, bw, bh, dw, dh, mw, mh, dw - 1, 0);
    law_window_shows_the_picture_in_place(image, scaling, bw, bh, dw, dh, mw, mh, 0, dh - 1);
    law_window_shows_the_picture_in_place(image, scaling, bw, bh, dw, dh, mw, mh, dw - 1, dh - 1);
}

/// Carried over to fewer places, the last of `n` positions is the last place.
pub proof fn law_last_is_last(n: int, m: int)
    requires
        1 <= m <= n,
    ensures
        (n - 1) * m / n == m - 1,
{
    assert((n - 1) * m / n == m - 1) by (nonlinear_arith)
        requires
            1 <= m <= n,
    {
        assert((n - 1) * m == (m - 1) * n + (n - m));
    }
}

/// Nothing is turned round: further down the window is further down the picture, or the
/// same row of it; and so across.
pub proof fn law_order_is_kept(a: int, b: int, n: int, m: int)
    requires
        0 <= a <= b < n,
        0 <= m,
    ensures
        a * m / n <= b * m / n,
{
    assert(a * m <= b * m) by (nonlinear_arith)
        requires
            a <= b,
            0 <= m,
    ;
    vstd::arithmetic::div_mod::lemma_div_is_ordered(a * m, b * m, n);
}

/// Outside the picture the window shows the dark grey background.
pub proof fn law_margins_are_background(
    image: Image,
    scaling: Scaling,
    bw: int,
    bh: int,
    dw: int,
    dh: int,
    x: int,
    y: int,
)
    requires
        is_shown_at(scaling.fit_w as int, bw, dw),
        is_shown_at(scaling.fit_h as int, bh, dh),
        0 <= x < bw,
        0 <= y < bh,
        x < (bw - dw) / 2 || x >= (bw - dw) / 2 + dw || y < (bh - dh) / 2 || y >= (bh - dh) / 2
            + dh,
    ensures
        window_image(image, scaling, bw, bh)[y * bw + x] == 0x0014_1418,
{
    lemma_window_place(x, y, 0, 0, bw, bh);
}

/// Which pictures can be painted: those without area always; others where the window has an
/// area that the buffer holds, the picture's bytes are there, and there is one tap, within
/// the picture, for each column and row of the interpolation.
pub proof fn law_pictures_that_can_be_painted(
    tiny: Tiny,
    scaling: Scaling,
    bw: int,
    bh: int,
    len: int,
    dw: int,
    dh: int,
)
    requires
        is_shown_at(scaling.fit_w as int, bw, dw),
        is_shown_at(scaling.fit_h as int, bh, dh),
    ensures
        tiny.w == 0 || tiny.h == 0 ==> is_drawable(tiny, scaling, bw, bh, len),
        tiny.w >= 1 && tiny.h >= 1 ==> (is_drawable(tiny, scaling, bw, bh, len) <==> {
            let mw = if dw > 1024 {
                1024
            } else {
                dw
            };
            let mh = if dw > 1024 {
                if (dh * 1024 + dw / 2) / dw < 1 {
                    1
                } else {
                    (dh * 1024 + dw / 2) / dw
                }
            } else {
                dh
            };
            &&& bw * bh <= len
            &&& tiny.w * tiny.h * 3 <= tiny.rgb@.len()
            &&& scaling.xmap@.len() == mw
            &&& scaling.ymap@.len() == mh
            &&& mw * tiny.h * 3 <= usize::MAX
            &&& forall|i: int|
                0 <= i < mw ==> {
                    let tap = #[trigger] scaling.xmap@[i];
                    tap.i0 < tiny.w && tap.i1 < tiny.w && tap.f <= 256
                }
            &&& forall|i: int|
                0 <= i < mh ==> {
                    let tap = #[trigger] scaling.ymap@[i];
                    tap.i0 < tiny.h && tap.i1 < tiny.h && tap.f <= 256
                }
        }),
{
}

/// Nothing of a picture can be painted into a window without area.
pub proof fn law_window_without_area_shows_nothing(
    tiny: Tiny,
    scaling: Scaling,
    bw: int,
    bh: int,
    len: int,
)
    requires
        tiny.w >= 1,
        tiny.h >= 1,
        bw < 1 || bh < 1,
    ensures
        !is_drawable(tiny, scaling, bw, bh, len),
{
}

/// The picture's byte for channel `c` at (`x`, `y`).
pub open spec fn byte_at(image: Image, x: int, y: int, c: int) -> int {
    image.rgb[(y * image.w + x) * 3 + c] as int
}

/// `f` 256ths of `b` and the rest of `a`, rounded down.
pub open spec fn blend(a: int, b: int, f: int) -> int {
    (a * (256 - f) + b * f) / 256
}

/// Channel `c` of row `y`, read across by the tap of column `x`, or as it is where the
/// picture keeps its width.
pub open spec fn read_across(image: Image, xmap: Seq<Tap>, x: int, y: int, c: int) -> int {
    if xmap.len() == image.w {
        byte_at(image, x, y, c)
    } else {
        blend(
            byte_at(image, xmap[x].i0 as int, y, c),
            byte_at(image, xmap[x].i1 as int, y, c),
            xmap[x].f as int,
        )
    }
}

/// Channel `c` of the picture at column `x` and row `y` of its enlargement.
pub open spec fn read_at(
    image: Image,
    xmap: Seq<Tap>,
    ymap: Seq<Tap>,
    x: int,
    y: int,
    c: int,
) -> int {
    if ymap.len() == image.h {
        read_across(image, xmap, x, y, c)
    } else {
        blend(
            read_across(image, xmap, x, ymap[y].i0 as int, c),
            read_across(image, xmap, x, ymap[y].i1 as int, c),
            ymap[y].f as int,
        )
    }
}

/// Each pixel of the enlargement mixes the four pixels of the picture that its taps name,
/// across and then down, by their weights; red is highest, then green, then blue.
pub proof fn law_enlarged_pixel_mixes_four(
    image: Image,
    xmap: Seq<Tap>,
    ymap: Seq<Tap>,
    x: int,
    y: int,
)
    requires
        0 <= x < xmap.len(),
        0 <= y < ymap.len(),
        image.w <= usize::MAX,
        image.h <= usize::MAX,
    ensures
        enlarged(image, xmap, ymap).len() == xmap.len() * ymap.len(),
        enlarged(image, xmap, ymap)[y * xmap.len() + x] == (read_at(image, xmap, ymap, x, y, 0)
            * 65536 + read_at(image, xmap, ymap, x, y, 1) * 256 + read_at(
            image,
            xmap,
            ymap,
            x,
            y,
            2,
        )) as u32,
{
    let (xs, ys) = (settled(xmap, image.w), settled(ymap, image.h));
    let n = xmap.len() as int;
    let j = y * n + x;
    assert(0 <= j < n * ymap.len() && j % n == x && j / n == y) by {
        lemma_window_place(x, y, 0, 0, n, ymap.len() as int);
    }
    lemma_read(image, xmap, ymap, x, y, 0);
    lemma_read(image, xmap, ymap, x, y, 1);
    lemma_read(image, xmap, ymap, x, y, 2);
}

proof fn lemma_read(image: Image, xmap: Seq<Tap>, ymap: Seq<Tap>, x: int, y: int, c: int)
    requires
        0 <= x < xmap.len(),
        0 <= y < ymap.len(),
        image.w <= usize::MAX,
        image.h <= usize::MAX,
    ensures
        mixed_at(image, settled(xmap, image.w)[x], settled(ymap, image.h)[y], c)
            == read_at(image, xmap, ymap, x, y, c),
{
    let (tx, ty) = (settled(xmap, image.w)[x], settled(ymap, image.h)[y]);
    assert forall|row: int| #[trigger] mixed_across(image, row, tx, c)
        == read_across(image, xmap, x, row, c) by {
        if xmap.len() == image.w {
            let (a, b) = (byte_at(image, x, row, c), byte_at(image, tx.i1 as int, row, c));
            assert((a * 256 + b * 0) / 256 == a) by (nonlinear_arith);
        }
    }
    if ymap.len() == image.h {
        let a = read_across(image, xmap, x, y, c);
        let b = read_across(image, xmap, x, ty.i1 as int, c);
        assert((a * 256 + b * 0) / 256 == a) by (nonlinear_arith);
    }
}

/// A tap reads the position it is put on, or the last, and the one after it, or the last;
/// its weight is what it is given, one at most.
pub proof fn law_tap_reads_neighbours(floor: usize, frac: u32, src: usize)
    requires
        src > 0,
    ensures
        ({
            let tap = tap_at(floor, frac, src);
            &&& floor < src ==> tap.i0 == floor
            &&& floor >= src ==> tap.i0 == src - 1
            &&& tap.i0 + 1 < src ==> tap.i1 == tap.i0 + 1
            &&& tap.i0 + 1 >= src ==> tap.i1 == tap.i0
            &&& frac <= 256 ==> tap.f == frac
            &&& frac > 256 ==> tap.f == 256
        }),
{
}

} // verus!
