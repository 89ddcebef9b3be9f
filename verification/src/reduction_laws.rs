//! What holds of every reduction of a frame: its size, what it keeps and what it loses.
use vstd::prelude::*;

use crate::blur::{
    blurred, channel_in_range, clamp_index, even_blurred, law_blur_stays_in_range,
    law_even_image_stays_even,
};
use crate::frame::Frame;
use crate::reduce::{
    at_least, bin_count, bin_mean, bin_of, bin_population, bin_total, frame_channel,
    grid_for, lemma_bin_in_range, lemma_bin_mean_is_byte, lemma_first_in_bin, lemma_flat,
    lemma_grid_for, lemma_visits, one, ones, picked_sum, processing, reduced_byte, reduction,
    row_of, row_total, row_totals, visits, first_in_bin, Grid, Image,
};
use crate::settings::strength_width;

verus! {

/// A picture is no wider than asked for and no larger than the frame, but for the least
/// size of two by two.
pub proof fn law_picture_is_small(frame: Frame, target_w: int)
    requires
        target_w >= 0,
        reduction(frame, target_w) is Some,
    ensures
        ({
            let image = reduction(frame, target_w)->0;
            let picture = frame.picture()->0;
            &&& 2 <= image.w <= at_least(target_w, 2)
            &&& image.w <= at_least(picture.width as int, 2)
            &&& 2 <= image.h <= at_least(picture.height as int, 2)
            &&& image.rgb.len() == image.w * image.h * 3
        }),
{
    let picture = frame.picture()->0;
    lemma_grid_for(picture.width as int, picture.height as int, target_w);
    let grid = grid_for(picture.width as int, picture.height as int, target_w);
    assert(grid.tw * grid.th * 3 >= 0) by (nonlinear_arith)
        requires
            grid.tw >= 2,
            grid.th >= 2,
    ;
}

/// A picture keeps the frame's proportions: its height is the nearest to them, unless
/// the least height or the frame's own height comes first.
pub proof fn law_picture_keeps_proportions(frame: Frame, target_w: int)
    requires
        target_w >= 0,
        reduction(frame, target_w) is Some,
    ensures
        ({
            let image = reduction(frame, target_w)->0;
            let (w, h) = (frame.picture()->0.width as int, frame.picture()->0.height as int);
            let off = image.h * w - h * image.w;
            2 < image.h < h ==> -w <= 2 * off <= w
        }),
{
    let picture = frame.picture()->0;
    let (w, h) = (picture.width as int, picture.height as int);
    let grid = grid_for(w, h, target_w);
    lemma_grid_for(w, h, target_w);
    if 2 < grid.th < h {
        let num = h * grid.tw + w / 2;
        let th = grid.th;
        assert(th == num / w);
        assert(th * w <= num < th * w + w) by (nonlinear_arith)
            requires
                0 < w,
                th == num / w,
        ;
    }
}

/// The picture that a frame comes to is whole: every pixel has its three bytes.
pub proof fn law_picture_is_whole(
    frame: Frame,
    target_w: usize,
    sigma_tenths: u32,
    prev_hash: u64,
)
    ensures
        processing(frame, target_w, sigma_tenths, prev_hash) matches Some((_, Some(image))) ==> {
            &&& image.w >= 2
            &&& image.h >= 2
            &&& image.rgb.len() == image.w * image.h * 3
        },
{
    if reduction(frame, target_w as int) is Some {
        law_picture_is_small(frame, target_w as int);
        let image = reduction(frame, target_w as int)->0;
        assert(image.w * image.h * 3 >= 0) by (nonlinear_arith)
            requires
                image.w >= 2,
                image.h >= 2,
        ;
    }
}

/// What a frame comes to is made of its reduced picture and of nothing else: frames that
/// reduce to one picture cannot be told apart afterwards.
pub proof fn law_only_the_reduction_is_shown(
    a: Frame,
    b: Frame,
    target_w: usize,
    sigma_tenths: u32,
    prev_hash: u64,
)
    requires
        reduction(a, target_w as int) == reduction(b, target_w as int),
    ensures
        processing(a, target_w, sigma_tenths, prev_hash) == processing(
            b,
            target_w,
            sigma_tenths,
            prev_hash,
        ),
{
}

/// The stronger of two blur strengths keeps no more columns, no more rows and no more
/// pixels of a frame.
pub proof fn law_stronger_blur_keeps_no_more(w: int, h: int, weak: int, strong: int)
    requires
        0 < w <= i32::MAX,
        0 < h <= i32::MAX,
        0 <= weak <= strong < 3,
    ensures
        ({
            let a = grid_for(w, h, strength_width(weak) as int);
            let b = grid_for(w, h, strength_width(strong) as int);
            &&& b.tw <= a.tw
            &&& b.th <= a.th
            &&& b.tw * b.th <= a.tw * a.th
        }),
{
    let a = grid_for(w, h, strength_width(weak) as int);
    let b = grid_for(w, h, strength_width(strong) as int);
    lemma_grid_for(w, h, strength_width(weak) as int);
    lemma_grid_for(w, h, strength_width(strong) as int);
    assert((h * b.tw + w / 2) / w <= (h * a.tw + w / 2) / w) by (nonlinear_arith)
        requires
            0 < w,
            0 < h,
            b.tw <= a.tw,
    {
        assert(h * b.tw <= h * a.tw);
        vstd::arithmetic::div_mod::lemma_div_is_ordered(h * b.tw + w / 2, h * a.tw + w / 2, w);
    }
    assert(b.tw * b.th <= a.tw * a.th) by (nonlinear_arith)
        requires
            0 <= b.tw <= a.tw,
            0 <= b.th <= a.th,
    ;
}

/// A frame whose content is that of the one before is passed over: the hash of one is
/// the next one's, and there is no picture to show.
pub proof fn law_unchanged_content_is_passed_over(
    before: Frame,
    after: Frame,
    target_w: usize,
    sigma_tenths: u32,
    prev_hash: u64,
)
    requires
        reduction(before, target_w as int) is Some,
        reduction(before, target_w as int) == reduction(after, target_w as int),
    ensures
        ({
            let (hash, _) = processing(before, target_w, sigma_tenths, prev_hash)->0;
            processing(after, target_w, sigma_tenths, hash) == Some((hash, None::<Image>))
        }),
{
}

proof fn lemma_population_counts(n: int, step: int, t: int, b: int, k: int, i: int)
    requires
        0 <= i < k,
        bin_of(i * step, n, t) == b,
    ensures
        bin_population(n, step, t, b, k) >= 1,
    decreases k,
{
    lemma_population_is_natural(n, step, t, b, k - 1);
    if i < k - 1 {
        lemma_population_counts(n, step, t, b, k - 1, i);
    }
}

proof fn lemma_population_is_natural(n: int, step: int, t: int, b: int, k: int)
    ensures
        bin_population(n, step, t, b, k) >= 0,
    decreases k,
{
    if k > 0 {
        lemma_population_is_natural(n, step, t, b, k - 1);
    }
}

/// The populations of the first `m` bins together.
spec fn populations(n: int, step: int, t: int, k: int, m: int) -> int
    decreases m,
{
    if m <= 0 {
        0
    } else {
        populations(n, step, t, k, m - 1) + bin_population(n, step, t, m - 1, k)
    }
}

proof fn lemma_populations_step(n: int, step: int, t: int, k: int, m: int)
    requires
        0 < k,
        0 <= m,
        0 <= bin_of((k - 1) * step, n, t),
    ensures
        populations(n, step, t, k, m) == populations(n, step, t, k - 1, m) + if bin_of(
            (k - 1) * step,
            n,
            t,
        ) < m {
            1int
        } else {
            0
        },
    decreases m,
{
    if m > 0 {
        lemma_populations_step(n, step, t, k, m - 1);
    }
}

/// Each visited position is in one bin.
proof fn lemma_populations_total(n: int, step: int, t: int, k: int)
    requires
        0 < n,
        0 < step,
        0 < t,
        0 <= k <= visits(n, step),
    ensures
        populations(n, step, t, k, t) == k,
    decreases k,
{
    if k > 0 {
        lemma_populations_total(n, step, t, k - 1);
        lemma_visits(n, step, k - 1);
        assert(0 <= (k - 1) * step) by (nonlinear_arith)
            requires
                0 < k,
                0 < step,
        ;
        lemma_bin_in_range((k - 1) * step, n, t);
        lemma_populations_step(n, step, t, k, t);
    } else {
        lemma_populations_of_none(n, step, t, t);
    }
}

proof fn lemma_populations_of_none(n: int, step: int, t: int, m: int)
    ensures
        populations(n, step, t, 0, m) == 0,
    decreases m,
{
    if m > 0 {
        lemma_populations_of_none(n, step, t, m - 1);
    }
}

proof fn lemma_populations_at_least(n: int, step: int, t: int, k: int, m: int)
    requires
        forall|b: int| 0 <= b < m ==> #[trigger] bin_population(n, step, t, b, k) >= 1,
        0 <= m,
    ensures
        populations(n, step, t, k, m) >= m,
    decreases m,
{
    if m > 0 {
        lemma_populations_at_least(n, step, t, k, m - 1);
    }
}

/// A bin along an axis is visited where the steps before the last bin do not pass the end.
proof fn lemma_bin_is_visited(n: int, step: int, t: int, b: int)
    requires
        0 < n,
        0 < step,
        0 < t,
        0 <= b < t,
        (t - 1) * step < n,
    ensures
        bin_population(n, step, t, b, visits(n, step)) >= 1,
{
    let s = step * t;
    assert(0 < s) by (nonlinear_arith)
        requires
            s == step * t,
            0 < step,
            0 < t,
    ;
    let i = if s <= n {
        first_in_bin(n, s, b)
    } else {
        b
    };
    if s <= n {
        lemma_first_in_bin(n, s, b);
        assert(b * n <= i * s < (b + 1) * n) by (nonlinear_arith)
            requires
                i * s >= b * n,
                i * s < b * n + s,
                s <= n,
        ;
    } else {
        assert(b * n <= b * s) by (nonlinear_arith)
            requires
                0 <= b,
                n < s,
        ;
        assert(b * s < (b + 1) * n) by (nonlinear_arith)
            requires
                0 <= b <= t - 1,
                (t - 1) * step < n,
                s == step * t,
                n < s,
                0 < t,
                0 < n,
        {
            assert(b * (s - n) <= (t - 1) * (s - n));
            assert((t - 1) * (s - n) == t * ((t - 1) * step) - (t - 1) * n);
            assert(t * ((t - 1) * step) < t * n);
            assert(t * n - (t - 1) * n == n);
        }
    }
    assert((i * step) * t == i * s) by (nonlinear_arith)
        requires
            s == step * t,
    ;
    assert(i * s / n == b) by (nonlinear_arith)
        requires
            b * n <= i * s < (b + 1) * n,
            0 < n,
    ;
    assert(i * step < n) by (nonlinear_arith)
        requires
            (i * step) * t < (b + 1) * n,
            b + 1 <= t,
            0 < t,
            0 < n,
    {
        assert((b + 1) * n <= t * n);
    }
    lemma_visits(n, step, i);
    lemma_population_counts(n, step, t, b, visits(n, step), i);
}

/// Along an axis of `n` positions visited in steps of `step`, every one of `t` bins is
/// visited exactly when the last bin can be reached: when `t - 1` steps stay within.
pub proof fn law_every_bin_is_visited(n: int, step: int, t: int)
    requires
        0 < n,
        0 < step,
        0 < t,
    ensures
        (forall|b: int|
            0 <= b < t ==> #[trigger] bin_population(n, step, t, b, visits(n, step)) >= 1) <==> (t
            - 1) * step < n,
{
    let k = visits(n, step);
    if (t - 1) * step < n {
        assert forall|b: int| 0 <= b < t implies #[trigger] bin_population(
            n,
            step,
            t,
            b,
            k,
        ) >= 1 by {
            lemma_bin_is_visited(n, step, t, b);
        }
    } else {
        if forall|b: int| 0 <= b < t ==> #[trigger] bin_population(n, step, t, b, k) >= 1 {
            lemma_populations_at_least(n, step, t, k, t);
            lemma_visits(n, step, t - 1);
            lemma_visits(n, step, 0);
            lemma_populations_total(n, step, t, k);
        }
    }
}

proof fn lemma_constant_sum(f: spec_fn(int) -> int, c: int, n: int, step: int, t: int, b: int, k: int)
    requires
        forall|i: int| #[trigger] f(i) == c,
    ensures
        picked_sum(f, n, step, t, b, k) == c * bin_population(n, step, t, b, k),
    decreases k,
{
    if k > 0 {
        lemma_constant_sum(f, c, n, step, t, b, k - 1);
        let p = bin_population(n, step, t, b, k - 1);
        assert(c * (p + 1) == c * p + c) by (nonlinear_arith);
    } else {
        assert(c * 0 == 0) by (nonlinear_arith);
    }
}

/// A bin takes the columns of its column bin in each row of its row bin.
pub proof fn law_bin_count_is_columns_by_rows(grid: Grid, bx: int, by: int)
    ensures
        bin_count(grid, bx, by) == bin_population(
            grid.w,
            grid.step,
            grid.tw,
            bx,
            visits(grid.w, grid.step),
        ) * bin_population(grid.h, grid.step, grid.th, by, visits(grid.h, grid.step)),
{
    let cols = visits(grid.w, grid.step);
    let c = bin_population(grid.w, grid.step, grid.tw, bx, cols);
    let f = row_totals(ones(), grid, bx);
    assert forall|y: int| #[trigger] f(y) == c by {
        assert(row_of(ones(), y) =~= one());
        assert(f(y) == row_total(ones(), grid, bx, y, cols));
    }
    lemma_constant_sum(f, c, grid.h, grid.step, grid.th, by, visits(grid.h, grid.step));
}

/// No pixel of the picture is made of nothing, whatever the frame's size.
pub proof fn law_no_bin_is_empty(w: int, h: int, target_w: int, bx: int, by: int)
    requires
        0 < w <= i32::MAX,
        0 < h <= i32::MAX,
        0 <= target_w,
        0 <= bx < grid_for(w, h, target_w).tw,
        0 <= by < grid_for(w, h, target_w).th,
    ensures
        bin_count(grid_for(w, h, target_w), bx, by) >= 1,
{
    let grid = grid_for(w, h, target_w);
    lemma_grid_for(w, h, target_w);
    lemma_bin_is_visited(grid.w, grid.step, grid.tw, bx);
    lemma_bin_is_visited(grid.h, grid.step, grid.th, by);
    law_bin_count_is_columns_by_rows(grid, bx, by);
    let (cx, cy) = (
        bin_population(grid.w, grid.step, grid.tw, bx, visits(grid.w, grid.step)),
        bin_population(grid.h, grid.step, grid.th, by, visits(grid.h, grid.step)),
    );
    assert(cx * cy >= 1) by (nonlinear_arith)
        requires
            cx >= 1,
            cy >= 1,
    ;
}

/// The frame's bytes cover its pixels.
pub open spec fn is_covered(frame: Frame) -> bool {
    let picture = frame.picture()->0;
    picture.data@.len() >= picture.width * picture.height * frame.layout().size
}

/// The frames have the same size, and both or neither have bytes enough for it. Their
/// formats may differ.
pub open spec fn alike(a: Frame, b: Frame) -> bool {
    let (pa, pb) = (a.picture()->0, b.picture()->0);
    &&& a.is_readable()
    &&& b.is_readable()
    &&& pa.width == pb.width
    &&& pa.height == pb.height
    &&& is_covered(a) == is_covered(b)
}

/// The value of channel `c` (red, green, blue) at the place (`x`, `y`) of the frame.
pub open spec fn pixel_channel(frame: Frame, x: int, y: int, c: int) -> int {
    frame_channel(frame, c)(x, y)
}

/// The grid by which a frame is reduced.
pub open spec fn frame_grid(frame: Frame, target_w: int) -> Grid {
    let picture = frame.picture()->0;
    grid_for(picture.width as int, picture.height as int, target_w)
}

/// The sums agree where `f` and `e` agree on the visited positions, but for the `i`-th of
/// them, where `e` is larger by `d`.
proof fn lemma_picked_sum_moved(
    f: spec_fn(int) -> int,
    e: spec_fn(int) -> int,
    n: int,
    step: int,
    t: int,
    b: int,
    k: int,
    i: int,
    d: int,
)
    requires
        forall|j: int|
            0 <= j < k ==> #[trigger] e(j * step) == f(j * step) + if j == i {
                d
            } else {
                0
            },
    ensures
        picked_sum(e, n, step, t, b, k) == picked_sum(f, n, step, t, b, k) + if 0 <= i < k
            && bin_of(i * step, n, t) == b {
            d
        } else {
            0
        },
    decreases k,
{
    if k > 0 {
        lemma_picked_sum_moved(f, e, n, step, t, b, k - 1, i, d);
        assert(e((k - 1) * step) == f((k - 1) * step) + if k - 1 == i {
            d
        } else {
            0
        });
    }
}

/// The totals agree where `g` and `e` agree on the visited pixels, but for the one at
/// visited place (`ix`, `iy`), where `e` is larger by `d`.
proof fn lemma_bin_total_moved(
    g: spec_fn(int, int) -> int,
    e: spec_fn(int, int) -> int,
    grid: Grid,
    bx: int,
    by: int,
    ix: int,
    iy: int,
    d: int,
)
    requires
        forall|jx: int, jy: int|
            0 <= jx < visits(grid.w, grid.step) && 0 <= jy < visits(grid.h, grid.step)
                ==> #[trigger] e(jx * grid.step, jy * grid.step) == g(
                jx * grid.step,
                jy * grid.step,
            ) + if jx == ix && jy == iy {
                d
            } else {
                0
            },
    ensures
        bin_total(e, grid, bx, by) == bin_total(g, grid, bx, by) + if 0 <= ix < visits(
            grid.w,
            grid.step,
        ) && 0 <= iy < visits(grid.h, grid.step) && bin_of(ix * grid.step, grid.w, grid.tw) == bx
            && bin_of(iy * grid.step, grid.h, grid.th) == by {
            d
        } else {
            0
        },
{
    let (cols, rows) = (visits(grid.w, grid.step), visits(grid.h, grid.step));
    let in_columns = 0 <= ix < cols && bin_of(ix * grid.step, grid.w, grid.tw) == bx;
    let f1 = row_totals(g, grid, bx);
    let f2 = row_totals(e, grid, bx);
    let moved = if in_columns {
        d
    } else {
        0
    };
    assert forall|jy: int| 0 <= jy < rows implies #[trigger] f2(jy * grid.step) == f1(
        jy * grid.step,
    ) + if jy == iy {
        moved
    } else {
        0
    } by {
        let y = jy * grid.step;
        let (r1, r2) = (row_of(g, y), row_of(e, y));
        let dx = if jy == iy {
            d
        } else {
            0
        };
        assert forall|jx: int| 0 <= jx < cols implies #[trigger] r2(jx * grid.step) == r1(
            jx * grid.step,
        ) + if jx == ix {
            dx
        } else {
            0
        } by {
            assert(e(jx * grid.step, jy * grid.step) == r2(jx * grid.step));
        }
        lemma_picked_sum_moved(r1, r2, grid.w, grid.step, grid.tw, bx, cols, ix, dx);
        assert(f1(y) == row_total(g, grid, bx, y, cols));
        assert(f2(y) == row_total(e, grid, bx, y, cols));
    }
    lemma_picked_sum_moved(f1, f2, grid.h, grid.step, grid.th, by, rows, iy, moved);
}

/// Frames whose bins have the same totals have the same reduction.
proof fn lemma_same_reduction(a: Frame, b: Frame, target_w: int)
    requires
        target_w >= 0,
        alike(a, b),
        ({
            let grid = frame_grid(a, target_w);
            forall|bx: int, by: int, c: int|
                0 <= bx < grid.tw && 0 <= by < grid.th && 0 <= c < 3 ==> #[trigger] bin_total(
                    frame_channel(b, c),
                    grid,
                    bx,
                    by,
                ) == bin_total(frame_channel(a, c), grid, bx, by)
        }),
    ensures
        reduction(a, target_w) == reduction(b, target_w),
{
    let pa = a.picture()->0;
    let grid = frame_grid(a, target_w);
    lemma_grid_for(pa.width as int, pa.height as int, target_w);
    if reduction(a, target_w) is Some {
        let (ra, rb) = (reduction(a, target_w)->0, reduction(b, target_w)->0);
        assert forall|j: int| 0 <= j < ra.rgb.len() implies ra.rgb[j] == rb.rgb[j] by {
            let i = j / 3;
            lemma_flat(i, grid.tw);
            assert(i / grid.tw < grid.th) by (nonlinear_arith)
                requires
                    0 <= i < grid.tw * grid.th,
                    0 < grid.tw,
                    0 < grid.th,
            ;
            let (bx, by) = (i % grid.tw, i / grid.tw);
            assert(bin_total(frame_channel(b, j % 3), grid, bx, by) == bin_total(
                frame_channel(a, j % 3),
                grid,
                bx,
                by,
            ));
            assert(reduced_byte(a, grid, j) == reduced_byte(b, grid, j));
        }
        assert(ra =~= rb);
    }
}

/// Equal values at the visited positions give equal sums.
proof fn lemma_picked_sum_same(
    f: spec_fn(int) -> int,
    e: spec_fn(int) -> int,
    n: int,
    step: int,
    t: int,
    b: int,
    k: int,
)
    requires
        forall|j: int| 0 <= j < k ==> #[trigger] e(j * step) == f(j * step),
    ensures
        picked_sum(e, n, step, t, b, k) == picked_sum(f, n, step, t, b, k),
    decreases k,
{
    if k > 0 {
        lemma_picked_sum_same(f, e, n, step, t, b, k - 1);
        assert(e((k - 1) * step) == f((k - 1) * step));
    }
}

/// Equal values at the visited pixels give equal totals.
proof fn lemma_bin_total_same(
    g: spec_fn(int, int) -> int,
    e: spec_fn(int, int) -> int,
    grid: Grid,
    bx: int,
    by: int,
)
    requires
        forall|jx: int, jy: int|
            0 <= jx < visits(grid.w, grid.step) && 0 <= jy < visits(grid.h, grid.step)
                ==> #[trigger] e(jx * grid.step, jy * grid.step) == g(
                jx * grid.step,
                jy * grid.step,
            ),
    ensures
        bin_total(e, grid, bx, by) == bin_total(g, grid, bx, by),
{
    let (cols, rows) = (visits(grid.w, grid.step), visits(grid.h, grid.step));
    let (f1, f2) = (row_totals(g, grid, bx), row_totals(e, grid, bx));
    assert forall|jy: int| 0 <= jy < rows implies #[trigger] f2(jy * grid.step) == f1(
        jy * grid.step,
    ) by {
        let y = jy * grid.step;
        let (r1, r2) = (row_of(g, y), row_of(e, y));
        assert forall|jx: int| 0 <= jx < cols implies #[trigger] r2(jx * grid.step) == r1(
            jx * grid.step,
        ) by {
            assert(e(jx * grid.step, jy * grid.step) == r2(jx * grid.step));
        }
        lemma_picked_sum_same(r1, r2, grid.w, grid.step, grid.tw, bx, cols);
        assert(f1(y) == row_total(g, grid, bx, y, cols));
        assert(f2(y) == row_total(e, grid, bx, y, cols));
    }
    lemma_picked_sum_same(f1, f2, grid.h, grid.step, grid.th, by, rows);
}

/// Only the colours of the visited pixels count: pixels that the steps pass over, bytes
/// that are no colour and the format of the pixels leave no trace.
pub proof fn law_only_visited_colours_count(a: Frame, b: Frame, target_w: int)
    requires
        target_w >= 0,
        alike(a, b),
        ({
            let grid = frame_grid(a, target_w);
            forall|jx: int, jy: int, c: int|
                0 <= jx < visits(grid.w, grid.step) && 0 <= jy < visits(grid.h, grid.step) && 0
                    <= c < 3 ==> #[trigger] pixel_channel(
                    b,
                    jx * grid.step,
                    jy * grid.step,
                    c,
                ) == pixel_channel(a, jx * grid.step, jy * grid.step, c)
        }),
    ensures
        reduction(a, target_w) == reduction(b, target_w),
{
    let grid = frame_grid(a, target_w);
    assert forall|bx: int, by: int, c: int|
        0 <= bx < grid.tw && 0 <= by < grid.th && 0 <= c < 3 implies #[trigger] bin_total(
        frame_channel(b, c),
        grid,
        bx,
        by,
    ) == bin_total(frame_channel(a, c), grid, bx, by) by {
        let (ga, gb) = (frame_channel(a, c), frame_channel(b, c));
        assert forall|jx: int, jy: int|
            0 <= jx < visits(grid.w, grid.step) && 0 <= jy < visits(
                grid.h,
                grid.step,
            ) implies #[trigger] gb(jx * grid.step, jy * grid.step) == ga(
            jx * grid.step,
            jy * grid.step,
        ) by {
            assert(pixel_channel(b, jx * grid.step, jy * grid.step, c) == pixel_channel(
                a,
                jx * grid.step,
                jy * grid.step,
                c,
            ));
        }
        lemma_bin_total_same(ga, gb, grid, bx, by);
    }
    lemma_same_reduction(a, b, target_w);
}

/// A place past the last pixel shows the last pixel.
proof fn lemma_place_shows_pixel(frame: Frame, x: int, y: int, c: int)
    requires
        frame.is_readable(),
        0 <= x,
        0 <= y,
    ensures
        ({
            let (w, h) = (frame.picture()->0.width as int, frame.picture()->0.height as int);
            &&& 0 <= clamp_index(x, w) < w
            &&& 0 <= clamp_index(y, h) < h
            &&& pixel_channel(frame, x, y, c) == pixel_channel(
                frame,
                clamp_index(x, w),
                clamp_index(y, h),
                c,
            )
        }),
{
}

/// Every packed format is read: frames of any two formats that show the same colours,
/// each with its bytes complete, have the same reduction.
pub proof fn law_format_does_not_matter(a: Frame, b: Frame, target_w: int)
    requires
        target_w >= 0,
        a.is_readable(),
        b.is_readable(),
        a.picture()->0.width == b.picture()->0.width,
        a.picture()->0.height == b.picture()->0.height,
        is_covered(a),
        is_covered(b),
        forall|x: int, y: int, c: int|
            0 <= x < a.picture()->0.width && 0 <= y < a.picture()->0.height && 0 <= c < 3
                ==> #[trigger] pixel_channel(b, x, y, c) == pixel_channel(a, x, y, c),
    ensures
        reduction(a, target_w) == reduction(b, target_w),
{
    let grid = frame_grid(a, target_w);
    let (w, h) = (a.picture()->0.width as int, a.picture()->0.height as int);
    lemma_grid_for(w, h, target_w);
    assert forall|jx: int, jy: int, c: int|
        0 <= jx < visits(grid.w, grid.step) && 0 <= jy < visits(grid.h, grid.step) && 0 <= c
            < 3 implies #[trigger] pixel_channel(b, jx * grid.step, jy * grid.step, c)
        == pixel_channel(a, jx * grid.step, jy * grid.step, c) by {
        let (x, y) = (jx * grid.step, jy * grid.step);
        assert(0 <= x && 0 <= y) by (nonlinear_arith)
            requires
                x == jx * grid.step,
                y == jy * grid.step,
                0 <= jx,
                0 <= jy,
                0 < grid.step,
        ;
        lemma_place_shows_pixel(a, x, y, c);
        lemma_place_shows_pixel(b, x, y, c);
        assert(pixel_channel(b, clamp_index(x, w), clamp_index(y, h), c) == pixel_channel(
            a,
            clamp_index(x, w),
            clamp_index(y, h),
            c,
        ));
    }
    law_only_visited_colours_count(a, b, target_w);
}

/// Exchanging the values at two visited places of one bin changes no total.
proof fn lemma_bin_total_exchanged(
    g: spec_fn(int, int) -> int,
    e: spec_fn(int, int) -> int,
    grid: Grid,
    bx: int,
    by: int,
    x1: int,
    y1: int,
    x2: int,
    y2: int,
)
    requires
        grid.ok(),
        0 <= x1 < visits(grid.w, grid.step),
        0 <= x2 < visits(grid.w, grid.step),
        0 <= y1 < visits(grid.h, grid.step),
        0 <= y2 < visits(grid.h, grid.step),
        bin_of(x1 * grid.step, grid.w, grid.tw) == bin_of(x2 * grid.step, grid.w, grid.tw),
        bin_of(y1 * grid.step, grid.h, grid.th) == bin_of(y2 * grid.step, grid.h, grid.th),
        forall|jx: int, jy: int|
            0 <= jx < visits(grid.w, grid.step) && 0 <= jy < visits(grid.h, grid.step)
                ==> #[trigger] e(jx * grid.step, jy * grid.step) == if jx == x1 && jy == y1 {
                g(x2 * grid.step, y2 * grid.step)
            } else if jx == x2 && jy == y2 {
                g(x1 * grid.step, y1 * grid.step)
            } else {
                g(jx * grid.step, jy * grid.step)
            },
    ensures
        bin_total(e, grid, bx, by) == bin_total(g, grid, bx, by),
{
    let step = grid.step;
    let (cols, rows) = (visits(grid.w, step), visits(grid.h, step));
    let (v1, v2) = (g(x1 * step, y1 * step), g(x2 * step, y2 * step));
    // Halfway: the first of the two places has the other's value.
    let gm = |x: int, y: int| if x == x1 * step && y == y1 * step { v2 } else { g(x, y) };
    assert forall|jx: int, jy: int|
        0 <= jx < cols && 0 <= jy < rows implies #[trigger] gm(jx * step, jy * step) == g(
        jx * step,
        jy * step,
    ) + if jx == x1 && jy == y1 {
        v2 - v1
    } else {
        0
    } by {
        lemma_same_multiple(jx, x1, step);
        lemma_same_multiple(jy, y1, step);
    }
    lemma_bin_total_moved(g, gm, grid, bx, by, x1, y1, v2 - v1);
    let back = if x1 == x2 && y1 == y2 {
        0
    } else {
        v1 - v2
    };
    assert forall|jx: int, jy: int|
        0 <= jx < cols && 0 <= jy < rows implies #[trigger] e(jx * step, jy * step) == gm(
        jx * step,
        jy * step,
    ) + if jx == x2 && jy == y2 {
        back
    } else {
        0
    } by {
        lemma_same_multiple(jx, x1, step);
        lemma_same_multiple(jy, y1, step);
    }
    lemma_bin_total_moved(gm, e, grid, bx, by, x2, y2, back);
}

/// The pixel at (`x`, `y`) of the frame is one of those that the steps visit.
pub open spec fn is_visited(frame: Frame, target_w: int, x: int, y: int) -> bool {
    let step = frame_grid(frame, target_w).step;
    &&& 0 <= x < frame.picture()->0.width
    &&& 0 <= y < frame.picture()->0.height
    &&& x % step == 0
    &&& y % step == 0
}

/// The visited pixels of `b` are those of `a`, with the pixels at (`x1`, `y1`) and
/// (`x2`, `y2`) exchanged.
pub open spec fn is_exchange(
    a: Frame,
    b: Frame,
    target_w: int,
    x1: int,
    y1: int,
    x2: int,
    y2: int,
) -> bool {
    forall|x: int, y: int, c: int|
        is_visited(a, target_w, x, y) && 0 <= c < 3 ==> #[trigger] pixel_channel(b, x, y, c)
            == if x == x1 && y == y1 {
            pixel_channel(a, x2, y2, c)
        } else if x == x2 && y == y2 {
            pixel_channel(a, x1, y1, c)
        } else {
            pixel_channel(a, x, y, c)
        }
}

/// What the frame shows at visited place (`jx`, `jy`) after the exchange.
proof fn lemma_exchange_at(
    a: Frame,
    b: Frame,
    target_w: int,
    x1: int,
    y1: int,
    x2: int,
    y2: int,
    jx: int,
    jy: int,
    c: int,
)
    requires
        target_w >= 0,
        alike(a, b),
        is_exchange(a, b, target_w, x1, y1, x2, y2),
        0 <= c < 3,
        0 <= jx < visits(frame_grid(a, target_w).w, frame_grid(a, target_w).step),
        0 <= jy < visits(frame_grid(a, target_w).h, frame_grid(a, target_w).step),
    ensures
        ({
            let step = frame_grid(a, target_w).step;
            let x = clamp_index(jx * step, a.picture()->0.width as int);
            let y = clamp_index(jy * step, a.picture()->0.height as int);
            &&& frame_channel(a, c)(jx * step, jy * step) == pixel_channel(a, x, y, c)
            &&& frame_channel(b, c)(jx * step, jy * step) == if x == x1 && y == y1 {
                pixel_channel(a, x2, y2, c)
            } else if x == x2 && y == y2 {
                pixel_channel(a, x1, y1, c)
            } else {
                pixel_channel(a, x, y, c)
            }
        }),
{
    let grid = frame_grid(a, target_w);
    let (w, h) = (a.picture()->0.width as int, a.picture()->0.height as int);
    let step = grid.step;
    lemma_grid_for(w, h, target_w);
    lemma_visits(grid.w, step, jx);
    lemma_visits(grid.h, step, jy);
    lemma_one_pixel_step(w, h, target_w);
    let (px, py) = (jx * step, jy * step);
    assert(0 <= px && 0 <= py && px % step == 0 && py % step == 0) by (nonlinear_arith)
        requires
            px == jx * step,
            py == jy * step,
            0 <= jx,
            0 <= jy,
            0 < step,
    {
        vstd::arithmetic::div_mod::lemma_mod_multiples_basic(jx, step);
        vstd::arithmetic::div_mod::lemma_mod_multiples_basic(jy, step);
    }
    lemma_place_shows_pixel(a, px, py, c);
    lemma_place_shows_pixel(b, px, py, c);
    let (x, y) = (clamp_index(px, w), clamp_index(py, h));
    assert(x % step == 0 && y % step == 0);
    assert(is_visited(a, target_w, x, y));
    assert(pixel_channel(b, x, y, c) == pixel_channel(b, px, py, c));
}

/// A frame of one column or one row is visited pixel by pixel.
proof fn lemma_one_pixel_step(w: int, h: int, target_w: int)
    requires
        0 < w <= i32::MAX,
        0 < h <= i32::MAX,
        0 <= target_w,
    ensures
        w == 1 || h == 1 ==> grid_for(w, h, target_w).step == 1,
{
    let grid = grid_for(w, h, target_w);
    lemma_grid_for(w, h, target_w);
    if w == 1 {
        assert(w / (grid.tw * 3) == 0) by (nonlinear_arith)
            requires
                w == 1,
                grid.tw >= 2,
        ;
    }
    if h == 1 {
        assert(h / (grid.th * 3) == 0) by (nonlinear_arith)
            requires
                h == 1,
                grid.th >= 2,
        ;
    }
}

/// The exchange changes no total of a channel.
proof fn lemma_exchange_keeps_totals(
    a: Frame,
    b: Frame,
    target_w: int,
    x1: int,
    y1: int,
    x2: int,
    y2: int,
    bx: int,
    by: int,
    c: int,
)
    requires
        target_w >= 0,
        alike(a, b),
        is_visited(a, target_w, x1, y1),
        is_visited(a, target_w, x2, y2),
        ({
            let grid = frame_grid(a, target_w);
            &&& bin_of(x1, grid.w, grid.tw) == bin_of(x2, grid.w, grid.tw)
            &&& bin_of(y1, grid.h, grid.th) == bin_of(y2, grid.h, grid.th)
        }),
        is_exchange(a, b, target_w, x1, y1, x2, y2),
        0 <= c < 3,
    ensures
        bin_total(frame_channel(b, c), frame_grid(a, target_w), bx, by) == bin_total(
            frame_channel(a, c),
            frame_grid(a, target_w),
            bx,
            by,
        ),
{
    let grid = frame_grid(a, target_w);
    let step = grid.step;
    let (w, h) = (a.picture()->0.width as int, a.picture()->0.height as int);
    let (cols, rows) = (visits(grid.w, step), visits(grid.h, step));
    let (ga, gb) = (frame_channel(a, c), frame_channel(b, c));
    lemma_grid_for(w, h, target_w);
    lemma_one_pixel_step(w, h, target_w);
    let (i1, j1, i2, j2) = (x1 / step, y1 / step, x2 / step, y2 / step);
    lemma_visit_of(x1, grid.w, step);
    lemma_visit_of(x2, grid.w, step);
    lemma_visit_of(y1, grid.h, step);
    lemma_visit_of(y2, grid.h, step);
    assert(ga(x1, y1) == pixel_channel(a, x1, y1, c) && ga(x2, y2) == pixel_channel(a, x2, y2, c));
    if w == 1 && h == 1 {
        assert forall|jx: int, jy: int| 0 <= jx < cols && 0 <= jy < rows implies #[trigger] gb(
            jx * step,
            jy * step,
        ) == ga(jx * step, jy * step) by {
            lemma_exchange_at(a, b, target_w, x1, y1, x2, y2, jx, jy, c);
        }
        lemma_bin_total_same(ga, gb, grid, bx, by);
    } else if w == 1 || h == 1 {
        // The one column, or row, is read in two places: the exchange is made in each.
        let gm = |x: int, y: int|
            if (w == 1 && x == 0) || (h == 1 && y == 0) {
                gb(x, y)
            } else {
                ga(x, y)
            };
        let (k, m) = if w == 1 {
            (1int, 0int)
        } else {
            (0int, 1int)
        };
        assert forall|i: int| #[trigger] (i * step) == i by {
            assert(i * step == i) by (nonlinear_arith)
                requires
                    step == 1,
            ;
        }
        assert forall|jx: int, jy: int|
            0 <= jx < cols && 0 <= jy < rows implies #[trigger] gm(jx * step, jy * step) == if jx
            == i1 && jy == j1 {
            ga(i2 * step, j2 * step)
        } else if jx == i2 && jy == j2 {
            ga(i1 * step, j1 * step)
        } else {
            ga(jx * step, jy * step)
        } by {
            lemma_exchange_at(a, b, target_w, x1, y1, x2, y2, jx, jy, c);
            lemma_visits(grid.w, step, jx);
            lemma_visits(grid.h, step, jy);
        }
        lemma_bin_total_exchanged(ga, gm, grid, bx, by, i1, j1, i2, j2);
        assert forall|jx: int, jy: int|
            0 <= jx < cols && 0 <= jy < rows implies #[trigger] gb(jx * step, jy * step) == if jx
            == i1 + k && jy == j1 + m {
            gm((i2 + k) * step, (j2 + m) * step)
        } else if jx == i2 + k && jy == j2 + m {
            gm((i1 + k) * step, (j1 + m) * step)
        } else {
            gm(jx * step, jy * step)
        } by {
            lemma_exchange_at(a, b, target_w, x1, y1, x2, y2, jx, jy, c);
            lemma_visits(grid.w, step, jx);
            lemma_visits(grid.h, step, jy);
            lemma_place_shows_pixel(a, x1 + k, y1 + m, c);
            lemma_place_shows_pixel(a, x2 + k, y2 + m, c);
            assert(ga(x1 + k, y1 + m) == pixel_channel(a, x1 + k, y1 + m, c));
            assert(ga(x2 + k, y2 + m) == pixel_channel(a, x2 + k, y2 + m, c));
        }
        lemma_visits(grid.w, step, i1 + k);
        lemma_visits(grid.h, step, j1 + m);
        lemma_visits(grid.w, step, i2 + k);
        lemma_visits(grid.h, step, j2 + m);
        lemma_bin_total_exchanged(gm, gb, grid, bx, by, i1 + k, j1 + m, i2 + k, j2 + m);
    } else {
        assert forall|jx: int, jy: int|
            0 <= jx < cols && 0 <= jy < rows implies #[trigger] gb(jx * step, jy * step) == if jx
            == i1 && jy == j1 {
            ga(i2 * step, j2 * step)
        } else if jx == i2 && jy == j2 {
            ga(i1 * step, j1 * step)
        } else {
            ga(jx * step, jy * step)
        } by {
            lemma_exchange_at(a, b, target_w, x1, y1, x2, y2, jx, jy, c);
            lemma_visits(grid.w, step, jx);
            lemma_visits(grid.h, step, jy);
            lemma_same_multiple(jx, i1, step);
            lemma_same_multiple(jy, j1, step);
            lemma_same_multiple(jx, i2, step);
            lemma_same_multiple(jy, j2, step);
            assert(0 <= jx * step && 0 <= jy * step) by (nonlinear_arith)
                requires
                    0 <= jx,
                    0 <= jy,
                    0 < step,
            ;
        }
        lemma_bin_total_exchanged(ga, gb, grid, bx, by, i1, j1, i2, j2);
    }
}

/// A position that the steps visit, as the number of its visit.
proof fn lemma_visit_of(x: int, n: int, step: int)
    requires
        0 <= x < n,
        0 < step,
        x % step == 0,
    ensures
        0 <= x / step < visits(n, step),
        (x / step) * step == x,
{
    vstd::arithmetic::div_mod::lemma_fundamental_div_mod(x, step);
    assert((x / step) * step == step * (x / step)) by (nonlinear_arith);
    assert(0 <= x / step) by (nonlinear_arith)
        requires
            0 <= x,
            0 < step,
    ;
    lemma_visits(n, step, x / step);
}

/// The picture cannot tell the pixels of a bin apart: a frame with two visited pixels of
/// one bin exchanged has the same reduction, so nothing that is made of the picture can
/// say which of the two frames it was.
pub proof fn law_pixels_of_a_bin_are_interchangeable(
    a: Frame,
    b: Frame,
    target_w: int,
    x1: int,
    y1: int,
    x2: int,
    y2: int,
)
    requires
        target_w >= 0,
        alike(a, b),
        is_visited(a, target_w, x1, y1),
        is_visited(a, target_w, x2, y2),
        ({
            let grid = frame_grid(a, target_w);
            &&& bin_of(x1, grid.w, grid.tw) == bin_of(x2, grid.w, grid.tw)
            &&& bin_of(y1, grid.h, grid.th) == bin_of(y2, grid.h, grid.th)
        }),
        is_exchange(a, b, target_w, x1, y1, x2, y2),
    ensures
        reduction(a, target_w) == reduction(b, target_w),
{
    let grid = frame_grid(a, target_w);
    assert forall|bx: int, by: int, c: int|
        0 <= bx < grid.tw && 0 <= by < grid.th && 0 <= c < 3 implies #[trigger] bin_total(
        frame_channel(b, c),
        grid,
        bx,
        by,
    ) == bin_total(frame_channel(a, c), grid, bx, by) by {
        lemma_exchange_keeps_totals(a, b, target_w, x1, y1, x2, y2, bx, by, c);
    }
    lemma_same_reduction(a, b, target_w);
}

proof fn lemma_same_multiple(a: int, b: int, step: int)
    by (nonlinear_arith)
    requires
        0 < step,
    ensures
        a * step == b * step <==> a == b,
{
}

/// Sums over a bin lie between its population times the least and the greatest value.
proof fn lemma_picked_sum_between(
    f: spec_fn(int) -> int,
    e: spec_fn(int) -> int,
    n: int,
    step: int,
    t: int,
    b: int,
    k: int,
    lo: int,
    hi: int,
)
    requires
        forall|j: int|
            0 <= j < k ==> lo * e(j * step) <= #[trigger] f(j * step) <= hi * e(j * step),
    ensures
        lo * picked_sum(e, n, step, t, b, k) <= picked_sum(f, n, step, t, b, k) <= hi * picked_sum(
            e,
            n,
            step,
            t,
            b,
            k,
        ),
    decreases k,
{
    if k > 0 {
        lemma_picked_sum_between(f, e, n, step, t, b, k - 1, lo, hi);
        let p = picked_sum(e, n, step, t, b, k - 1);
        let v = e((k - 1) * step);
        assert(lo * (p + v) == lo * p + lo * v) by (nonlinear_arith);
        assert(hi * (p + v) == hi * p + hi * v) by (nonlinear_arith);
        assert(lo * v <= f((k - 1) * step) <= hi * v);
    } else {
        assert(lo * 0 == 0 && hi * 0 == 0) by (nonlinear_arith);
    }
}

/// Channel `c` of the visited pixels of the frame is within `lo..=hi`.
pub open spec fn visited_within(frame: Frame, target_w: int, c: int, lo: int, hi: int) -> bool {
    let grid = frame_grid(frame, target_w);
    forall|jx: int, jy: int|
        0 <= jx < visits(grid.w, grid.step) && 0 <= jy < visits(grid.h, grid.step)
            ==> lo <= #[trigger] pixel_channel(frame, jx * grid.step, jy * grid.step, c) <= hi
}

proof fn lemma_bin_mean_between(
    frame: Frame,
    target_w: int,
    bx: int,
    by: int,
    c: int,
    lo: int,
    hi: int,
)
    requires
        target_w >= 0,
        frame.is_readable(),
        0 <= c < 3,
        visited_within(frame, target_w, c, lo, hi),
        bin_count(frame_grid(frame, target_w), bx, by) >= 1,
    ensures
        ({
            let grid = frame_grid(frame, target_w);
            lo <= bin_mean(frame_channel(frame, c), grid, bx, by) <= hi
        }),
{
    let grid = frame_grid(frame, target_w);
    let g = frame_channel(frame, c);
    let (cols, rows) = (visits(grid.w, grid.step), visits(grid.h, grid.step));
    let f = row_totals(g, grid, bx);
    let e = row_totals(ones(), grid, bx);
    assert forall|jy: int| 0 <= jy < rows implies lo * e(jy * grid.step) <= #[trigger] f(
        jy * grid.step,
    ) <= hi * e(jy * grid.step) by {
        let y = jy * grid.step;
        let (fy, ey) = (row_of(g, y), row_of(ones(), y));
        assert forall|jx: int| 0 <= jx < cols implies lo * ey(jx * grid.step) <= #[trigger] fy(
            jx * grid.step,
        ) <= hi * ey(jx * grid.step) by {
            assert(fy(jx * grid.step) == pixel_channel(frame, jx * grid.step, y, c));
            assert(ey(jx * grid.step) == 1);
        }
        lemma_picked_sum_between(fy, ey, grid.w, grid.step, grid.tw, bx, cols, lo, hi);
        assert(f(y) == row_total(g, grid, bx, y, cols));
        assert(e(y) == row_total(ones(), grid, bx, y, cols));
    }
    lemma_picked_sum_between(f, e, grid.h, grid.step, grid.th, by, rows, lo, hi);
    let (total, count) = (bin_total(g, grid, bx, by), bin_count(grid, bx, by));
    assert(lo <= total / count <= hi) by (nonlinear_arith)
        requires
            lo * count <= total <= hi * count,
            count >= 1,
    ;
}

/// Each channel of the picture stays within the frame's range: its bytes are within that
/// range, and blurring takes off four levels at the most.
pub proof fn law_picture_stays_in_range(
    frame: Frame,
    target_w: int,
    r: int,
    c: int,
    lo: int,
    hi: int,
)
    requires
        target_w >= 0,
        0 <= r <= 266,
        0 <= c < 3,
        lo <= hi,
        0 <= hi <= 255,
        reduction(frame, target_w) is Some,
        visited_within(frame, target_w, c, lo, hi),
    ensures
        ({
            let image = reduction(frame, target_w)->0;
            &&& channel_in_range(image.rgb, c, lo, hi)
            &&& channel_in_range(blurred(image.rgb, image.w, image.h, r), c, lo - 4, hi)
        }),
{
    let picture = frame.picture()->0;
    let grid = frame_grid(frame, target_w);
    let image = reduction(frame, target_w)->0;
    lemma_grid_for(picture.width as int, picture.height as int, target_w);
    law_picture_is_small(frame, target_w);
    assert forall|j: int| 0 <= j < image.rgb.len() && j % 3 == c implies lo
        <= #[trigger] image.rgb[j] <= hi by {
        let i = j / 3;
        let (bx, by) = (i % grid.tw, i / grid.tw);
        lemma_flat(i, grid.tw);
        assert(i / grid.tw < grid.th) by (nonlinear_arith)
            requires
                0 <= i < grid.tw * grid.th,
                0 < grid.tw,
                0 < grid.th,
        ;
        law_no_bin_is_empty(picture.width as int, picture.height as int, target_w, bx, by);
        lemma_bin_mean_between(frame, target_w, bx, by, c, lo, hi);
        lemma_bin_mean_is_byte(frame_channel(frame, c), grid, bx, by);
        assert(image.rgb[j] == reduced_byte(frame, grid, j));
    }
    law_blur_stays_in_range(image.rgb, image.w, image.h, r, c, lo, hi);
}

/// A frame of one colour gives a picture of one colour: the reduced picture has the very
/// colour, and the blurred one has what the four passes make of it, everywhere.
pub proof fn law_one_colour_gives_one_colour(frame: Frame, target_w: int, r: int, c: int, v: u8)
    requires
        target_w >= 0,
        0 <= r,
        0 <= c < 3,
        reduction(frame, target_w) is Some,
        visited_within(frame, target_w, c, v as int, v as int),
    ensures
        ({
            let image = reduction(frame, target_w)->0;
            let dim = even_blurred(v, r) as int;
            &&& channel_in_range(image.rgb, c, v as int, v as int)
            &&& channel_in_range(blurred(image.rgb, image.w, image.h, r), c, dim, dim)
        }),
{
    let image = reduction(frame, target_w)->0;
    law_picture_stays_in_range(frame, target_w, 1, c, v as int, v as int);
    law_picture_is_small(frame, target_w);
    law_even_image_stays_even(image.rgb, image.w, image.h, r, c, v);
}

} // verus!
