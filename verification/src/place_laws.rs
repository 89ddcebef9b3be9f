//! What a reduced picture shows, told by the frame's own pixels: every byte of it is the
//! mean of the pixels of its place, and of no others.
use vstd::prelude::*;

use crate::blur::clamp_index;
use crate::frame::Frame;
use crate::reduce::{
    at_least, bin_of, bin_total, frame_channel, grid_for, lemma_bin_mean_is_byte,
    lemma_grid_for, lemma_unflat, ones, picked_sum, reduced_byte, reduction, row_of, row_total,
    row_totals, visits, Grid, Tiny,
};
use crate::reduction_laws::law_no_bin_is_empty;

verus! {

/// The width and the height of a frame of packed pixels.
pub open spec fn frame_size(frame: Frame) -> Option<(int, int)> {
    match frame {
        Frame::BGRA(p) => Some((p.width as int, p.height as int)),
        Frame::BGRx(p) => Some((p.width as int, p.height as int)),
        Frame::RGBx(p) => Some((p.width as int, p.height as int)),
        Frame::XBGR(p) => Some((p.width as int, p.height as int)),
        Frame::BGR0(p) => Some((p.width as int, p.height as int)),
        Frame::RGB(p) => Some((p.width as int, p.height as int)),
        Frame::YUVFrame => None,
    }
}

/// Red (0), green (1) or blue (2) of the frame's pixel at (`x`, `y`).
pub open spec fn colour(frame: Frame, x: int, y: int, c: int) -> int {
    match frame {
        Frame::BGRA(p) => p.data@[(y * p.width + x) * 4 + 2 - c] as int,
        Frame::BGRx(p) => p.data@[(y * p.width + x) * 4 + 2 - c] as int,
        Frame::RGBx(p) => p.data@[(y * p.width + x) * 4 + c] as int,
        Frame::XBGR(p) => p.data@[(y * p.width + x) * 4 + 3 - c] as int,
        Frame::BGR0(p) => p.data@[(y * p.width + x) * 3 + 2 - c] as int,
        Frame::RGB(p) => p.data@[(y * p.width + x) * 3 + c] as int,
        Frame::YUVFrame => 0,
    }
}

/// How many bytes the frame holds, and how many its pixels take.
pub open spec fn bytes_held_and_taken(frame: Frame) -> (int, int) {
    match frame {
        Frame::BGRA(p) => (p.data@.len() as int, p.width * p.height * 4),
        Frame::BGRx(p) => (p.data@.len() as int, p.width * p.height * 4),
        Frame::RGBx(p) => (p.data@.len() as int, p.width * p.height * 4),
        Frame::XBGR(p) => (p.data@.len() as int, p.width * p.height * 4),
        Frame::BGR0(p) => (p.data@.len() as int, p.width * p.height * 3),
        Frame::RGB(p) => (p.data@.len() as int, p.width * p.height * 3),
        Frame::YUVFrame => (0, 0),
    }
}

/// The distance of the pixels that are looked at, where `w` by `h` pixels become `tw` by
/// `th`: a third of what becomes one pixel, along the axis where that is less.
pub open spec fn stride(w: int, h: int, tw: int, th: int) -> int {
    let (across, down) = (w / (tw * 3), h / (th * 3));
    let least = if across < down {
        across
    } else {
        down
    };
    if least < 1 {
        1
    } else {
        least
    }
}

/// Position `i` of `n` is looked at for place `b` of `t`. A single position is looked at
/// for every place.
pub open spec fn is_for(i: int, n: int, step: int, t: int, b: int) -> bool {
    &&& i % step == 0
    &&& n == 1 || i * t / n == b
}

/// The sum of `f` over those of the first `k` of `n` positions that are looked at for
/// place `b` of `t`.
pub open spec fn along(
    f: spec_fn(int) -> int,
    n: int,
    step: int,
    t: int,
    b: int,
    k: int,
) -> int
    decreases k,
{
    if k <= 0 {
        0
    } else {
        along(f, n, step, t, b, k - 1) + if is_for(k - 1, n, step, t, b) {
            f(k - 1)
        } else {
            0
        }
    }
}

/// The row `y` of the values `g`.
pub open spec fn values_in_row(g: spec_fn(int, int) -> int, y: int) -> spec_fn(int) -> int {
    |x: int| g(x, y)
}

/// The sums of the rows of `w` values of `g`, for place `bx` of `tw`.
pub open spec fn row_sums(
    g: spec_fn(int, int) -> int,
    w: int,
    step: int,
    tw: int,
    bx: int,
) -> spec_fn(int) -> int {
    |y: int| along(values_in_row(g, y), w, step, tw, bx, w)
}

/// The sum of `g` over the pixels of a `w` by `h` frame that are looked at for the place
/// (`bx`, `by`) of `tw` by `th`.
pub open spec fn place_sum(
    g: spec_fn(int, int) -> int,
    w: int,
    h: int,
    tw: int,
    th: int,
    bx: int,
    by: int,
) -> int {
    let step = stride(w, h, tw, th);
    along(row_sums(g, w, step, tw, bx), h, step, th, by, h)
}

/// The values of channel `c` of the frame's pixels.
pub open spec fn colours(frame: Frame, c: int) -> spec_fn(int, int) -> int {
    |x: int, y: int| colour(frame, x, y, c)
}

/// One for each pixel.
pub open spec fn each() -> spec_fn(int, int) -> int {
    |x: int, y: int| 1int
}

/// The frame's pixel at (`x`, `y`) is looked at for the place (`bx`, `by`) of `tw` by `th`.
pub open spec fn is_in_place(
    w: int,
    h: int,
    tw: int,
    th: int,
    x: int,
    y: int,
    bx: int,
    by: int,
) -> bool {
    let step = stride(w, h, tw, th);
    &&& 0 <= x < w
    &&& 0 <= y < h
    &&& is_for(x, w, step, tw, bx)
    &&& is_for(y, h, step, th, by)
}

/// The number of multiples of `step` below `i` and below `i + 1`.
proof fn lemma_visits_step(i: int, step: int)
    requires
        0 <= i,
        0 < step,
    ensures
        i % step == 0 ==> visits(i + 1, step) == visits(i, step) + 1 && visits(i, step) * step == i,
        i % step != 0 ==> visits(i + 1, step) == visits(i, step),
{
    let q = i / step;
    let m = i % step;
    assert(i == q * step + m && 0 <= m < step && 0 <= q) by (nonlinear_arith)
        requires
            0 <= i,
            0 < step,
            q == i / step,
            m == i % step,
    ;
    if m == 0 {
        assert((i + step - 1) / step == q && (i + step) / step == q + 1) by (nonlinear_arith)
            requires
                i == q * step,
                0 < step,
        ;
    } else {
        assert((i + step - 1) / step == q + 1 && (i + step) / step == q + 1) by (nonlinear_arith)
            requires
                i == q * step + m,
                0 < m < step,
        ;
    }
}

proof fn lemma_along_is_picked(
    f: spec_fn(int) -> int,
    e: spec_fn(int) -> int,
    n: int,
    step: int,
    t: int,
    b: int,
    k: int,
)
    requires
        2 <= n,
        0 < step,
        0 <= k <= n,
        forall|i: int| 0 <= i < n ==> #[trigger] e(i) == f(i),
    ensures
        along(f, n, step, t, b, k) == picked_sum(e, n, step, t, b, visits(k, step)),
    decreases k,
{
    if k > 0 {
        lemma_along_is_picked(f, e, n, step, t, b, k - 1);
        lemma_visits_step(k - 1, step);
        let v = visits(k - 1, step);
        if (k - 1) % step == 0 {
            assert(0 <= v) by (nonlinear_arith)
                requires
                    v * step == k - 1,
                    0 <= k - 1,
                    0 < step,
            ;
            assert(bin_of(v * step, n, t) == (k - 1) * t / n);
            assert(e(v * step) == f(k - 1));
        }
    } else {
        assert((step - 1) / step == 0) by (nonlinear_arith)
            requires
                0 < step,
        ;
    }
}

/// Along an axis, the pixels looked at for a place are the visited places of its bin.
proof fn lemma_axis(
    f: spec_fn(int) -> int,
    e: spec_fn(int) -> int,
    n: int,
    step: int,
    t: int,
    b: int,
)
    requires
        1 <= n,
        0 < step,
        n == 1 ==> step == 1 && t == 2,
        0 <= b < t,
        forall|i: int| 0 <= i ==> #[trigger] e(i) == f(clamp_index(i, n)),
    ensures
        along(f, n, step, t, b, n) == picked_sum(
            e,
            at_least(n, 2),
            step,
            t,
            b,
            visits(at_least(n, 2), step),
        ),
{
    if n >= 2 {
        lemma_along_is_picked(f, e, n, step, t, b, n);
    } else {
        assert(visits(2, 1) == 2);
        reveal_with_fuel(picked_sum, 3);
        reveal_with_fuel(along, 2);
        assert(e(0) == f(0) && e(1) == f(0));
        assert(bin_of(0 * step, 2, 2) == 0 && bin_of(1 * step, 2, 2) == 1);
    }
}

proof fn lemma_place_sum(
    g: spec_fn(int, int) -> int,
    e: spec_fn(int, int) -> int,
    w: int,
    h: int,
    grid: Grid,
    bx: int,
    by: int,
)
    requires
        1 <= w,
        1 <= h,
        2 <= grid.tw <= at_least(w, 2),
        2 <= grid.th <= at_least(h, 2),
        grid.w == at_least(w, 2),
        grid.h == at_least(h, 2),
        grid.step == stride(w, h, grid.tw, grid.th),
        0 <= bx < grid.tw,
        0 <= by < grid.th,
        forall|x: int, y: int|
            0 <= x && 0 <= y ==> #[trigger] e(x, y) == g(clamp_index(x, w), clamp_index(y, h)),
    ensures
        place_sum(g, w, h, grid.tw, grid.th, bx, by) == bin_total(e, grid, bx, by),
{
    let step = grid.step;
    let (rows, totals) = (row_sums(g, w, step, grid.tw, bx), row_totals(e, grid, bx));
    assert(w == 1 ==> w / (grid.tw * 3) == 0) by (nonlinear_arith)
        requires
            grid.tw >= 2,
    ;
    assert(h == 1 ==> h / (grid.th * 3) == 0) by (nonlinear_arith)
        requires
            grid.th >= 2,
    ;
    assert forall|y: int| 0 <= y implies #[trigger] totals(y) == rows(clamp_index(y, h)) by {
        let (f, ey) = (values_in_row(g, clamp_index(y, h)), row_of(e, y));
        assert forall|x: int| 0 <= x implies #[trigger] ey(x) == f(clamp_index(x, w)) by {
            assert(e(x, y) == g(clamp_index(x, w), clamp_index(y, h)));
        }
        lemma_axis(f, ey, w, step, grid.tw, bx);
        assert(totals(y) == row_total(e, grid, bx, y, visits(grid.w, step)));
    }
    lemma_axis(rows, totals, h, step, grid.th, by);
}

/// Which frames come to a picture: those of packed pixels with an area, whose bytes cover
/// it, as long as the picture's bytes can be counted.
pub proof fn law_frames_that_are_reduced(frame: Frame, target_w: int)
    requires
        target_w >= 0,
    ensures
        reduction(frame, target_w) is Some <==> {
            &&& frame_size(frame) matches Some((w, h))
            &&& w > 0
            &&& h > 0
            &&& bytes_held_and_taken(frame).0 >= bytes_held_and_taken(frame).1
            &&& grid_for(w, h, target_w).tw * grid_for(w, h, target_w).th * 3 <= usize::MAX
        },
        frame_size(frame) matches Some((w, h)) && w > 0 && h > 0 && bytes_held_and_taken(frame).0
            >= bytes_held_and_taken(frame).1 && (if w < 2 { 2 } else { w }) * (if h < 2 { 2 } else { h })
            * 3 <= usize::MAX ==> reduction(frame, target_w) is Some,
{
    if let Some((w, h)) = frame_size(frame) {
        if w > 0 && h > 0 {
            let grid = grid_for(w, h, target_w);
            lemma_grid_for(w, h, target_w);
            assert(grid.tw * grid.th * 3 <= grid.w * grid.h * 3) by (nonlinear_arith)
                requires
                    0 <= grid.tw <= grid.w,
                    0 <= grid.th <= grid.h,
            ;
        }
    }
}

/// The size of the picture: as many columns as asked for, but no more than the frame has
/// and two at least; and the number of rows that is nearest to the frame's proportions,
/// but no more than the frame has and two at least.
pub proof fn law_size_of_the_picture(frame: Frame, target_w: int)
    requires
        target_w >= 0,
        reduction(frame, target_w) is Some,
    ensures
        ({
            let image = reduction(frame, target_w)->0;
            let (w, h) = frame_size(frame)->0;
            let (most_w, most_h) = (if w < 2 { 2 } else { w }, if h < 2 { 2 } else { h });
            &&& 2 <= image.w <= most_w
            &&& image.w <= target_w || image.w == 2
            &&& image.w >= target_w || image.w == most_w
            &&& 2 <= image.h <= most_h
            &&& image.h * w <= h * image.w + w / 2 || image.h == 2
            &&& h * image.w + w / 2 < (image.h + 1) * w || image.h == most_h
            &&& image.rgb.len() == image.w * image.h * 3
        }),
{
    let (w, h) = frame_size(frame)->0;
    let grid = grid_for(w, h, target_w);
    lemma_grid_for(w, h, target_w);
    let num = h * grid.tw + w / 2;
    let rows = num / w;
    assert(rows * w <= num < (rows + 1) * w) by (nonlinear_arith)
        requires
            0 < w,
            rows == num / w,
    ;
    assert(rows <= grid.th ==> (rows + 1) * w <= (grid.th + 1) * w) by (nonlinear_arith)
        requires
            0 < w,
    ;
    assert(grid.th <= rows ==> grid.th * w <= rows * w) by (nonlinear_arith)
        requires
            0 < w,
    ;
    assert(grid.tw * grid.th * 3 >= 0) by (nonlinear_arith)
        requires
            grid.tw >= 0,
            grid.th >= 0,
    ;
}

/// Every byte of the picture is the mean, rounded down, of its channel over the pixels
/// that are looked at for its own place, of which there is one at least.
pub proof fn law_byte_is_the_mean_of_its_place(
    frame: Frame,
    target_w: int,
    bx: int,
    by: int,
    c: int,
)
    requires
        target_w >= 0,
        reduction(frame, target_w) is Some,
        0 <= bx < reduction(frame, target_w)->0.w,
        0 <= by < reduction(frame, target_w)->0.h,
        0 <= c < 3,
    ensures
        ({
            let image = reduction(frame, target_w)->0;
            let (w, h) = frame_size(frame)->0;
            let count = place_sum(each(), w, h, image.w, image.h, bx, by);
            let total = place_sum(colours(frame, c), w, h, image.w, image.h, bx, by);
            &&& count >= 1
            &&& image.rgb[(by * image.w + bx) * 3 + c] == total / count
        }),
{
    let image = reduction(frame, target_w)->0;
    let (w, h) = frame_size(frame)->0;
    let grid = grid_for(w, h, target_w);
    lemma_grid_for(w, h, target_w);
    lemma_unflat(bx, by, grid.tw, grid.th);
    let e = frame_channel(frame, c);
    assert forall|x: int, y: int| 0 <= x && 0 <= y implies #[trigger] e(x, y) == colours(frame, c)(
        clamp_index(x, w),
        clamp_index(y, h),
    ) by {
    }
    lemma_place_sum(colours(frame, c), e, w, h, grid, bx, by);
    lemma_place_sum(each(), ones(), w, h, grid, bx, by);
    law_no_bin_is_empty(w, h, target_w, bx, by);
    lemma_bin_mean_is_byte(e, grid, bx, by);
    let i = by * grid.tw + bx;
    let j = i * 3 + c;
    assert(j / 3 == i && j % 3 == c);
    assert(j < grid.tw * grid.th * 3);
    assert(image.rgb[j] == reduced_byte(frame, grid, j));
}

/// Sums of values that are `v` times each other wherever they are looked at.
proof fn lemma_along_scaled(
    f: spec_fn(int) -> int,
    e: spec_fn(int) -> int,
    v: int,
    n: int,
    step: int,
    t: int,
    b: int,
    k: int,
)
    requires
        forall|i: int| 0 <= i < k && is_for(i, n, step, t, b) ==> #[trigger] f(i) == v * e(i),
    ensures
        along(f, n, step, t, b, k) == v * along(e, n, step, t, b, k),
    decreases k,
{
    if k > 0 {
        lemma_along_scaled(f, e, v, n, step, t, b, k - 1);
        let (p, q) = (along(e, n, step, t, b, k - 1), e(k - 1));
        assert(v * (p + q) == v * p + v * q) by (nonlinear_arith);
        assert(is_for(k - 1, n, step, t, b) ==> f(k - 1) == v * e(k - 1));
    } else {
        assert(v * 0 == 0) by (nonlinear_arith);
    }
}

proof fn lemma_place_sum_scaled(
    f: spec_fn(int, int) -> int,
    e: spec_fn(int, int) -> int,
    v: int,
    w: int,
    h: int,
    tw: int,
    th: int,
    bx: int,
    by: int,
)
    requires
        forall|x: int, y: int|
            is_in_place(w, h, tw, th, x, y, bx, by) ==> #[trigger] f(x, y) == v * e(x, y),
    ensures
        place_sum(f, w, h, tw, th, bx, by) == v * place_sum(e, w, h, tw, th, bx, by),
{
    let step = stride(w, h, tw, th);
    let (rf, re) = (row_sums(f, w, step, tw, bx), row_sums(e, w, step, tw, bx));
    assert forall|y: int| 0 <= y < h && is_for(y, h, step, th, by) implies #[trigger] rf(y) == v
        * re(y) by {
        let (fy, ey) = (values_in_row(f, y), values_in_row(e, y));
        assert forall|x: int| 0 <= x < w && is_for(x, w, step, tw, bx) implies #[trigger] fy(x)
            == v * ey(x) by {
            assert(is_in_place(w, h, tw, th, x, y, bx, by));
            assert(f(x, y) == v * e(x, y));
        }
        lemma_along_scaled(fy, ey, v, w, step, tw, bx, w);
    }
    lemma_along_scaled(rf, re, v, h, step, th, by, h);
}

/// The picture keeps places: a pixel of the picture depends on the pixels of its own place
/// alone. Two frames of one size, of whatever formats, that agree on the pixels looked at
/// for a place have the same three bytes there.
pub proof fn law_picture_keeps_places(a: Frame, b: Frame, target_w: int, bx: int, by: int)
    requires
        target_w >= 0,
        reduction(a, target_w) is Some,
        reduction(b, target_w) is Some,
        frame_size(a) == frame_size(b),
        0 <= bx < reduction(a, target_w)->0.w,
        0 <= by < reduction(a, target_w)->0.h,
        ({
            let (w, h) = frame_size(a)->0;
            let (tw, th) = (reduction(a, target_w)->0.w, reduction(a, target_w)->0.h);
            forall|x: int, y: int, c: int|
                is_in_place(w, h, tw, th, x, y, bx, by) && 0 <= c < 3 ==> #[trigger] colour(
                    b,
                    x,
                    y,
                    c,
                ) == colour(a, x, y, c)
        }),
    ensures
        ({
            let (ia, ib) = (reduction(a, target_w)->0, reduction(b, target_w)->0);
            &&& ib.w == ia.w
            &&& ib.h == ia.h
            &&& forall|c: int|
                0 <= c < 3 ==> #[trigger] ib.rgb[(by * ia.w + bx) * 3 + c] == ia.rgb[(by * ia.w
                    + bx) * 3 + c]
        }),
{
    let (ia, ib) = (reduction(a, target_w)->0, reduction(b, target_w)->0);
    let (w, h) = frame_size(a)->0;
    assert forall|c: int| 0 <= c < 3 implies #[trigger] ib.rgb[(by * ia.w + bx) * 3 + c]
        == ia.rgb[(by * ia.w + bx) * 3 + c] by {
        law_byte_is_the_mean_of_its_place(a, target_w, bx, by, c);
        law_byte_is_the_mean_of_its_place(b, target_w, bx, by, c);
        let (ga, gb) = (colours(a, c), colours(b, c));
        assert forall|x: int, y: int|
            is_in_place(w, h, ia.w, ia.h, x, y, bx, by) implies #[trigger] gb(x, y) == 1 * ga(
            x,
            y,
        ) by {
            assert(colour(b, x, y, c) == colour(a, x, y, c));
        }
        lemma_place_sum_scaled(gb, ga, 1, w, h, ia.w, ia.h, bx, by);
    }
}

/// A place of one colour is shown in that colour: where all the pixels looked at for a
/// place have the value `v` in a channel, the picture has `v` there.
pub proof fn law_place_of_one_colour_is_shown(
    frame: Frame,
    target_w: int,
    bx: int,
    by: int,
    c: int,
    v: int,
)
    requires
        target_w >= 0,
        reduction(frame, target_w) is Some,
        0 <= bx < reduction(frame, target_w)->0.w,
        0 <= by < reduction(frame, target_w)->0.h,
        0 <= c < 3,
        ({
            let (w, h) = frame_size(frame)->0;
            let (tw, th) = (reduction(frame, target_w)->0.w, reduction(frame, target_w)->0.h);
            forall|x: int, y: int|
                is_in_place(w, h, tw, th, x, y, bx, by) ==> #[trigger] colour(frame, x, y, c) == v
        }),
    ensures
        ({
            let image = reduction(frame, target_w)->0;
            image.rgb[(by * image.w + bx) * 3 + c] == v
        }),
{
    let image = reduction(frame, target_w)->0;
    let (w, h) = frame_size(frame)->0;
    law_byte_is_the_mean_of_its_place(frame, target_w, bx, by, c);
    let g = colours(frame, c);
    assert forall|x: int, y: int|
        is_in_place(w, h, image.w, image.h, x, y, bx, by) implies #[trigger] g(x, y) == v * each()(
        x,
        y,
    ) by {
        assert(colour(frame, x, y, c) == v);
    }
    lemma_place_sum_scaled(g, each(), v, w, h, image.w, image.h, bx, by);
    let count = place_sum(each(), w, h, image.w, image.h, bx, by);
    assert(v * count / count == v) by (nonlinear_arith)
        requires
            count >= 1,
    ;
}

/// The model of a picture has its width, its height and its bytes, as they are.
pub proof fn law_model_of_a_picture(tiny: Tiny)
    ensures
        tiny@.w == tiny.w,
        tiny@.h == tiny.h,
        tiny@.rgb == tiny.rgb@,
{
}

} // verus!
