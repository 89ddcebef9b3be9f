//! Reducing a frame to a few averaged pixels, and the blurred image made of them.
use vstd::prelude::*;

use crate::blur::{blurred, box_blur, clamp_index, radius_fits, spec_blur_radius};
use crate::frame::{frame_parts, Frame};
use crate::reduction_laws::law_no_bin_is_empty;

verus! {

/// The reduced pixel, of `t` along an axis, that position `i` of `n` falls into.
pub open spec fn bin_of(i: int, n: int, t: int) -> int {
    i * t / n
}

/// How many positions of `n` are visited in steps of `step`.
pub open spec fn visits(n: int, step: int) -> int {
    (n + step - 1) / step
}

/// The sum of `f` over those of the first `k` visited positions that fall into bin `b`.
pub open spec fn picked_sum(
    f: spec_fn(int) -> int,
    n: int,
    step: int,
    t: int,
    b: int,
    k: int,
) -> int
    decreases k,
{
    if k <= 0 {
        0
    } else {
        picked_sum(f, n, step, t, b, k - 1) + if bin_of((k - 1) * step, n, t) == b {
            f((k - 1) * step)
        } else {
            0
        }
    }
}

/// How `w` by `h` places of a frame are reduced to `tw` by `th` bins, visiting one place
/// in `step` along each axis.
pub struct Grid {
    pub w: int,
    pub h: int,
    pub tw: int,
    pub th: int,
    pub step: int,
}

/// A row of the values `g(x, y)`.
pub open spec fn row_of(g: spec_fn(int, int) -> int, y: int) -> spec_fn(int) -> int {
    |x: int| g(x, y)
}

/// The sum of `g` over the first `k` visited pixels of row `y` that fall into column bin `bx`.
pub open spec fn row_total(
    g: spec_fn(int, int) -> int,
    grid: Grid,
    bx: int,
    y: int,
    k: int,
) -> int {
    picked_sum(row_of(g, y), grid.w, grid.step, grid.tw, bx, k)
}

/// The totals of the rows for column bin `bx`, by row.
pub open spec fn row_totals(g: spec_fn(int, int) -> int, grid: Grid, bx: int) -> spec_fn(int) -> int {
    |y: int| row_total(g, grid, bx, y, visits(grid.w, grid.step))
}

/// The sum of `g` over the pixels of bin (`bx`, `by`) in the first `k` visited rows.
pub open spec fn bin_total_upto(
    g: spec_fn(int, int) -> int,
    grid: Grid,
    bx: int,
    by: int,
    k: int,
) -> int {
    picked_sum(row_totals(g, grid, bx), grid.h, grid.step, grid.th, by, k)
}

/// The sum of `g` over the visited pixels of bin (`bx`, `by`).
pub open spec fn bin_total(g: spec_fn(int, int) -> int, grid: Grid, bx: int, by: int) -> int {
    bin_total_upto(g, grid, bx, by, visits(grid.h, grid.step))
}

/// One for every pixel.
pub open spec fn ones() -> spec_fn(int, int) -> int {
    |x: int, y: int| 1int
}

/// How many visited pixels fall into bin (`bx`, `by`).
pub open spec fn bin_count(grid: Grid, bx: int, by: int) -> int {
    bin_total(ones(), grid, bx, by)
}

/// The mean of `g` over the visited pixels of a bin, rounded down.
pub open spec fn bin_mean(g: spec_fn(int, int) -> int, grid: Grid, bx: int, by: int) -> int {
    bin_total(g, grid, bx, by) / bin_count(grid, bx, by)
}

impl Grid {
    pub open spec fn ok(self) -> bool {
        &&& 0 < self.w
        &&& 0 < self.h
        &&& 0 < self.tw
        &&& 0 < self.th
        &&& 0 < self.step
    }
}

pub(crate) proof fn lemma_visits(n: int, step: int, k: int)
    by (nonlinear_arith)
    requires
        0 < n,
        0 < step,
        0 <= k,
    ensures
        k < visits(n, step) <==> k * step < n,
        0 < visits(n, step),
{
    let q = (n + step - 1) / step;
    let m = (n + step - 1) % step;
    assert(n + step - 1 == q * step + m && 0 <= m < step);
    if k < q {
        assert(k * step <= (q - 1) * step);
        assert((q - 1) * step == q * step - step);
    } else {
        assert(k * step >= q * step);
    }
}

pub(crate) proof fn lemma_bin_in_range(i: int, n: int, t: int)
    by (nonlinear_arith)
    requires
        0 <= i < n,
        0 < t,
    ensures
        0 <= bin_of(i, n, t) < t,
{
    assert(i * t < n * t);
    assert(0 <= i * t);
}

/// Flat index of bin (`bx`, `by`).
pub(crate) proof fn lemma_flat(b: int, tw: int)
    by (nonlinear_arith)
    requires
        0 <= b,
        0 < tw,
    ensures
        b == (b / tw) * tw + b % tw,
        0 <= b % tw < tw,
        0 <= b / tw,
{
}

pub(crate) proof fn lemma_unflat(bx: int, by: int, tw: int, th: int)
    by (nonlinear_arith)
    requires
        0 <= bx < tw,
        0 <= by < th,
    ensures
        (by * tw + bx) / tw == by,
        (by * tw + bx) % tw == bx,
        0 <= by * tw + bx < tw * th,
{
    assert(by * tw <= (th - 1) * tw);
}

/// One for every position.
pub open spec fn one() -> spec_fn(int) -> int {
    |i: int| 1int
}

/// How many of the first `k` visited positions fall into bin `b`.
pub open spec fn bin_population(n: int, step: int, t: int, b: int, k: int) -> int {
    picked_sum(one(), n, step, t, b, k)
}

/// The positions of a bin follow each other from the first one, `lo`, on.
proof fn lemma_bin_population_from(n: int, step: int, t: int, b: int, most: int, lo: int, k: int)
    requires
        0 < n,
        0 < step,
        0 < t,
        0 <= b,
        0 <= most,
        0 <= lo,
        n <= most * (step * t),
        lo * (step * t) >= b * n,
        (lo - 1) * (step * t) < b * n,
    ensures
        k <= lo ==> bin_population(n, step, t, b, k) == 0,
        lo <= k <= lo + most ==> bin_population(n, step, t, b, k) <= k - lo,
        lo + most <= k ==> bin_population(n, step, t, b, k) <= most,
    decreases k,
{
    if k > 0 {
        lemma_bin_population_from(n, step, t, b, most, lo, k - 1);
        let i = k - 1;
        let s = step * t;
        assert(i * step * t == i * s) by (nonlinear_arith)
            requires
                s == step * t,
        ;
        assert(0 < s) by (nonlinear_arith)
            requires
                s == step * t,
                0 < step,
                0 < t,
        ;
        if i < lo {
            assert(i * s / n < b) by (nonlinear_arith)
                requires
                    i <= lo - 1,
                    (lo - 1) * s < b * n,
                    0 < s,
                    0 < n,
                    0 <= i,
            {
                assert(i * s <= (lo - 1) * s);
            }
        } else if i >= lo + most {
            assert(i * s / n > b) by (nonlinear_arith)
                requires
                    i >= lo + most,
                    lo * s >= b * n,
                    n <= most * s,
                    0 < s,
                    0 < n,
            {
                assert(i * s >= (lo + most) * s);
                assert((lo + most) * s == lo * s + most * s);
                assert((b + 1) * n == b * n + n);
                assert(i * s >= (b + 1) * n);
            }
        }
    }
}

/// The first position, counted in visits, that is not before bin `b`.
pub(crate) open spec fn first_in_bin(n: int, s: int, b: int) -> int {
    (b * n + s - 1) / s
}

pub(crate) proof fn lemma_first_in_bin(n: int, s: int, b: int)
    by (nonlinear_arith)
    requires
        0 < n,
        0 < s,
        0 <= b,
    ensures
        first_in_bin(n, s, b) * s >= b * n,
        (first_in_bin(n, s, b) - 1) * s < b * n,
        first_in_bin(n, s, b) * s < b * n + s,
        0 <= first_in_bin(n, s, b),
{
    let q = (b * n + s - 1) / s;
    let m = (b * n + s - 1) % s;
    assert(b * n + s - 1 == q * s + m && 0 <= m < s);
    assert((q - 1) * s == q * s - s);
    assert(0 <= b * n);
}

/// No more than `most` of the visited positions fall into one bin.
proof fn lemma_bin_population(n: int, step: int, t: int, b: int, most: int, k: int)
    requires
        0 < n,
        0 < step,
        0 < t,
        0 <= b,
        0 <= most,
        n <= most * (step * t),
    ensures
        bin_population(n, step, t, b, k) <= most,
{
    let s = step * t;
    assert(0 < s) by (nonlinear_arith)
        requires
            s == step * t,
            0 < step,
            0 < t,
    ;
    lemma_first_in_bin(n, s, b);
    lemma_bin_population_from(n, step, t, b, most, first_in_bin(n, s, b), k);
}

proof fn lemma_picked_sum_bounds(
    f: spec_fn(int) -> int,
    n: int,
    step: int,
    t: int,
    b: int,
    k: int,
    cap: int,
)
    requires
        forall|i: int| 0 <= #[trigger] f(i) <= cap,
    ensures
        0 <= picked_sum(f, n, step, t, b, k) <= cap * bin_population(n, step, t, b, k),
        0 <= bin_population(n, step, t, b, k),
    decreases k,
{
    if k > 0 {
        lemma_picked_sum_bounds(f, n, step, t, b, k - 1, cap);
        let p = bin_population(n, step, t, b, k - 1);
        assert(cap * (p + 1) == cap * p + cap) by (nonlinear_arith);
        assert(0 <= f((k - 1) * step) <= cap);
    }
}

/// The running total of a bin: the rows before visited row `jy`, and the first `jx`
/// visited pixels of that row.
spec fn running_total(
    g: spec_fn(int, int) -> int,
    grid: Grid,
    bx: int,
    by: int,
    jy: int,
    jx: int,
) -> int {
    bin_total_upto(g, grid, bx, by, jy) + if bin_of(jy * grid.step, grid.h, grid.th) == by {
        row_total(g, grid, bx, jy * grid.step, jx)
    } else {
        0
    }
}

/// `acc` holds the running total of every bin.
spec fn holds_totals(
    acc: Seq<u64>,
    g: spec_fn(int, int) -> int,
    grid: Grid,
    jy: int,
    jx: int,
) -> bool {
    &&& acc.len() == grid.tw * grid.th
    &&& forall|b: int|
        0 <= b < acc.len() ==> #[trigger] acc[b] == running_total(
            g,
            grid,
            b % grid.tw,
            b / grid.tw,
            jy,
            jx,
        )
}

/// Along one of the axes, no bin takes more than six of the visited places.
pub(crate) open spec fn bins_are_small(grid: Grid) -> bool {
    &&& grid.w <= i32::MAX
    &&& grid.h <= i32::MAX
    &&& grid.w <= 6 * (grid.step * grid.tw) || grid.h <= 6 * (grid.step * grid.th)
}

/// The most visited places along an axis that fall into one bin.
spec fn most_in_bin(n: int, step: int, t: int) -> int {
    if n <= 6 * (step * t) {
        6
    } else {
        i32::MAX as int
    }
}

proof fn lemma_most_in_bin(n: int, step: int, t: int, b: int, k: int)
    requires
        0 < n <= i32::MAX,
        0 < step,
        0 < t,
        0 <= b,
    ensures
        bin_population(n, step, t, b, k) <= most_in_bin(n, step, t),
{
    let most = most_in_bin(n, step, t);
    let s = step * t;
    assert(1 <= s) by (nonlinear_arith)
        requires
            s == step * t,
            0 < step,
            0 < t,
    ;
    lemma_bin_population(n, step, t, b, most, k);
}

proof fn lemma_running_total_bounds(
    g: spec_fn(int, int) -> int,
    grid: Grid,
    bx: int,
    by: int,
    jy: int,
    jx: int,
)
    requires
        grid.ok(),
        bins_are_small(grid),
        0 <= bx,
        0 <= by,
        0 <= jy,
        forall|x: int, y: int| 0 <= #[trigger] g(x, y) <= 255,
    ensures
        0 <= running_total(g, grid, bx, by, jy, jx) <= 1530 * i32::MAX,
{
    let f = row_totals(g, grid, bx);
    let mx = most_in_bin(grid.w, grid.step, grid.tw);
    let my = most_in_bin(grid.h, grid.step, grid.th);
    let cap = 255 * mx;
    assert forall|y: int, k: int| 0 <= #[trigger] row_total(g, grid, bx, y, k) <= cap by {
        assert forall|i: int| 0 <= #[trigger] row_of(g, y)(i) <= 255 by {
            assert(row_of(g, y)(i) == g(i, y));
        }
        lemma_picked_sum_bounds(row_of(g, y), grid.w, grid.step, grid.tw, bx, k, 255);
        lemma_most_in_bin(grid.w, grid.step, grid.tw, bx, k);
    }
    assert forall|y: int| 0 <= #[trigger] f(y) <= cap by {
        assert(f(y) == row_total(g, grid, bx, y, visits(grid.w, grid.step)));
    }
    lemma_picked_sum_bounds(f, grid.h, grid.step, grid.th, by, jy, cap);
    lemma_most_in_bin(grid.h, grid.step, grid.th, by, jy);
    lemma_most_in_bin(grid.h, grid.step, grid.th, by, jy + 1);
    assert(0 <= row_total(g, grid, bx, jy * grid.step, jx) <= cap);
    let (p0, p1) = (
        bin_population(grid.h, grid.step, grid.th, by, jy),
        bin_population(grid.h, grid.step, grid.th, by, jy + 1),
    );
    assert(cap * p0 <= cap * my && cap * p1 <= cap * my && cap * (p0 + 1) == cap * p0 + cap)
        by (nonlinear_arith)
        requires
            p0 <= my,
            p1 <= my,
            0 <= cap,
    ;
    assert(cap * my <= 1530 * i32::MAX) by (nonlinear_arith)
        requires
            cap == 255 * mx,
            mx == 6 || my == 6,
            0 <= mx <= i32::MAX,
            0 <= my <= i32::MAX,
    ;
}

/// Adding the pixel at visited place (`jx`, `jy`) to its bin moves the totals on.
proof fn lemma_deposit(
    acc: Seq<u64>,
    g: spec_fn(int, int) -> int,
    grid: Grid,
    jy: int,
    jx: int,
    slot: int,
    v: u64,
)
    requires
        grid.ok(),
        0 <= jx,
        0 <= jy,
        jx * grid.step < grid.w,
        jy * grid.step < grid.h,
        holds_totals(acc, g, grid, jy, jx),
        slot == bin_of(jy * grid.step, grid.h, grid.th) * grid.tw + bin_of(
            jx * grid.step,
            grid.w,
            grid.tw,
        ),
        v == acc[slot] + g(jx * grid.step, jy * grid.step),
    ensures
        0 <= slot < acc.len(),
        holds_totals(acc.update(slot, v), g, grid, jy, jx + 1),
{
    let bx = bin_of(jx * grid.step, grid.w, grid.tw);
    let by = bin_of(jy * grid.step, grid.h, grid.th);
    assert(0 <= jx * grid.step && 0 <= jy * grid.step) by (nonlinear_arith)
        requires
            0 <= jx,
            0 <= jy,
            0 < grid.step,
    ;
    lemma_bin_in_range(jx * grid.step, grid.w, grid.tw);
    lemma_bin_in_range(jy * grid.step, grid.h, grid.th);
    lemma_unflat(bx, by, grid.tw, grid.th);
    let new = acc.update(slot, v);
    assert forall|b: int| 0 <= b < new.len() implies #[trigger] new[b] == running_total(
        g,
        grid,
        b % grid.tw,
        b / grid.tw,
        jy,
        jx + 1,
    ) by {
        lemma_flat(b, grid.tw);
        assert(acc[b] == running_total(g, grid, b % grid.tw, b / grid.tw, jy, jx));
        let y = jy * grid.step;
        assert(row_of(g, y)(jx * grid.step) == g(jx * grid.step, y));
        assert(row_total(g, grid, b % grid.tw, y, jx + 1) == row_total(
            g,
            grid,
            b % grid.tw,
            y,
            jx,
        ) + if bx == b % grid.tw {
            g(jx * grid.step, y)
        } else {
            0
        });
    }
}

/// At the end of a visited row its totals join those of the rows before it.
proof fn lemma_row_end(acc: Seq<u64>, g: spec_fn(int, int) -> int, grid: Grid, jy: int)
    requires
        0 <= jy,
        holds_totals(acc, g, grid, jy, visits(grid.w, grid.step)),
    ensures
        holds_totals(acc, g, grid, jy + 1, 0),
{
    assert forall|b: int| 0 <= b < acc.len() implies #[trigger] acc[b] == running_total(
        g,
        grid,
        b % grid.tw,
        b / grid.tw,
        jy + 1,
        0,
    ) by {
        let f = row_totals(g, grid, b % grid.tw);
        assert(f(jy * grid.step) == row_total(
            g,
            grid,
            b % grid.tw,
            jy * grid.step,
            visits(grid.w, grid.step),
        ));
    }
}

proof fn lemma_totals_start(acc: Seq<u64>, g: spec_fn(int, int) -> int, grid: Grid)
    requires
        acc.len() == grid.tw * grid.th,
        forall|b: int| 0 <= b < acc.len() ==> acc[b] == 0,
    ensures
        holds_totals(acc, g, grid, 0, 0),
{
}

proof fn lemma_totals_end(acc: Seq<u64>, g: spec_fn(int, int) -> int, grid: Grid, b: int)
    requires
        holds_totals(acc, g, grid, visits(grid.h, grid.step), 0),
        0 <= b < acc.len(),
    ensures
        acc[b] == bin_total(g, grid, b % grid.tw, b / grid.tw),
{
}

/// A small blurred picture: `w` by `h` pixels of packed RGB.
pub struct Tiny {
    pub w: usize,
    pub h: usize,
    pub rgb: Vec<u8>,
}

/// What a frame came to. Without a picture the content is that of the frame before.
pub struct Processed {
    pub hash: u64,
    pub tiny: Option<Tiny>,
}

/// The value `i` moved into `lo..=hi`.
pub open spec fn clamped(i: int, lo: int, hi: int) -> int {
    if i < lo {
        lo
    } else if i > hi {
        hi
    } else {
        i
    }
}

/// `n`, but at least `least`.
pub open spec fn at_least(n: int, least: int) -> int {
    if n < least {
        least
    } else {
        n
    }
}

/// The grid by which a frame of `w` by `h` pixels is reduced to about `target_w` columns
/// with its proportions kept. Large frames are visited in steps of at most a third of a
/// bin along each axis, so that no bin is passed over. There are two places along an axis
/// at least, one for each of the two bins that a picture has at least.
pub open spec fn grid_for(w: int, h: int, target_w: int) -> Grid {
    let tw = clamped(target_w, 2, at_least(w, 2));
    let th = clamped((h * tw + w / 2) / w, 2, at_least(h, 2));
    let (across, down) = (w / (tw * 3), h / (th * 3));
    let step = at_least(if across < down { across } else { down }, 1);
    Grid { w: at_least(w, 2), h: at_least(h, 2), tw, th, step }
}

/// The values of the byte at offset `c` of the pixel at every place of a frame of `w` by
/// `h` pixels. Places past the last pixel read the last pixel.
pub open spec fn channel_values(data: Seq<u8>, w: int, h: int, px: int, c: int) -> spec_fn(
    int,
    int,
) -> int {
    |x: int, y: int| data[(clamp_index(y, h) * w + clamp_index(x, w)) * px + c] as int
}

/// The model of a small picture.
#[verifier::ext_equal]
pub struct Image {
    pub w: int,
    pub h: int,
    pub rgb: Seq<u8>,
}

impl View for Tiny {
    type V = Image;

    open spec fn view(&self) -> Image {
        Image { w: self.w as int, h: self.h as int, rgb: self.rgb@ }
    }
}

impl Tiny {
    /// The bytes cover the picture.
    pub open spec fn wf(self) -> bool {
        self.w * self.h * 3 <= self.rgb@.len()
    }
}

/// The values of channel `c` (red, green, blue) at every place of the frame.
pub open spec fn frame_channel(frame: Frame, c: int) -> spec_fn(int, int) -> int {
    let layout = frame.layout();
    let picture = frame.picture()->0;
    channel_values(
        picture.data@,
        picture.width as int,
        picture.height as int,
        layout.size,
        layout.channel(c),
    )
}

/// Byte `j` of the reduced picture: the mean of its channel over its bin.
pub open spec fn reduced_byte(frame: Frame, grid: Grid, j: int) -> u8 {
    let g = frame_channel(frame, j % 3);
    bin_mean(g, grid, j / 3 % grid.tw, j / 3 / grid.tw) as u8
}

/// The reduced picture of a frame. There is none for a frame that is not readable, or
/// whose bytes fall short of its size, or whose reduction would not fit in memory.
pub open spec fn reduction(frame: Frame, target_w: int) -> Option<Image> {
    let picture = frame.picture()->0;
    let grid = grid_for(picture.width as int, picture.height as int, target_w);
    if !frame.is_readable() {
        None
    } else if picture.data@.len() < picture.width * picture.height * frame.layout().size {
        None
    } else if grid.tw * grid.th * 3 > usize::MAX {
        None
    } else {
        Some(
            Image {
                w: grid.tw,
                h: grid.th,
                rgb: Seq::new(
                    (grid.tw * grid.th * 3) as nat,
                    |j: int| reduced_byte(frame, grid, j),
                ),
            },
        )
    }
}

/// A step of a third of a bin at most reaches every bin of an axis.
proof fn lemma_step_reaches(n: int, t: int, step: int)
    requires
        0 < n,
        2 <= t <= at_least(n, 2),
        step == 1 || 0 < step <= n / (t * 3),
    ensures
        (t - 1) * step < at_least(n, 2),
        n <= 6 * (step * t) || step < n / (t * 3),
        step <= at_least(n, 2),
{
    let q = n / (t * 3);
    assert(0 <= q && q * (t * 3) <= n && n < (q + 1) * (t * 3)) by (nonlinear_arith)
        requires
            0 < n,
            2 <= t,
            q == n / (t * 3),
    ;
    if step == 1 {
        assert((t - 1) * step == t - 1) by (nonlinear_arith)
            requires
                step == 1,
        ;
    } else {
        assert((t - 1) * step < n && step <= n) by (nonlinear_arith)
            requires
                0 < step <= q,
                q * (t * 3) <= n,
                2 <= t,
        {
            assert(step * (t * 3) <= q * (t * 3));
            assert((t - 1) * step < step * (t * 3));
        }
    }
    if step >= q {
        assert(n <= 6 * (step * t)) by (nonlinear_arith)
            requires
                n < (q + 1) * (t * 3),
                q + 1 <= 2 * step,
                2 <= t,
        {
            assert((q + 1) * (t * 3) <= 2 * step * (t * 3));
            assert(2 * step * (t * 3) == 6 * (step * t));
        }
    }
}

pub(crate) proof fn lemma_grid_for(w: int, h: int, target_w: int)
    requires
        0 < w <= i32::MAX,
        0 < h <= i32::MAX,
        0 <= target_w,
    ensures
        ({
            let grid = grid_for(w, h, target_w);
            &&& grid.ok()
            &&& bins_are_small(grid)
            &&& 2 <= grid.tw <= grid.w <= i32::MAX
            &&& 2 <= grid.th <= grid.h <= i32::MAX
            &&& (grid.tw - 1) * grid.step < grid.w
            &&& (grid.th - 1) * grid.step < grid.h
            &&& grid.step <= grid.w
        }),
{
    let grid = grid_for(w, h, target_w);
    let (tw, th, step) = (grid.tw, grid.th, grid.step);
    lemma_step_reaches(w, tw, step);
    lemma_step_reaches(h, th, step);
    assert(grid.w <= 6 * (step * tw) || grid.h <= 6 * (step * th)) by {
        assert(step * tw >= 2 && step * th >= 2) by (nonlinear_arith)
            requires
                step >= 1,
                tw >= 2,
                th >= 2,
        ;
    }
}

proof fn lemma_product_fits(a: int, b: int)
    by (nonlinear_arith)
    requires
        0 <= a <= i32::MAX,
        0 <= b <= i32::MAX,
    ensures
        0 <= a * b <= i32::MAX * i32::MAX,
{
}

/// The pixel at (`x`, `y`) lies within the picture's bytes.
proof fn lemma_pixel_within(x: int, y: int, w: int, h: int, px: int)
    by (nonlinear_arith)
    requires
        0 <= x < w,
        0 <= y < h,
        0 < px,
    ensures
        0 <= y * w + x < w * h,
        0 <= (y * w + x) * px,
        (y * w + x) * px + px <= w * h * px,
{
    assert(y * w + x <= (h - 1) * w + (w - 1));
    assert((h - 1) * w + w == w * h);
    assert((y * w + x) * px + px == (y * w + x + 1) * px);
    assert((y * w + x + 1) * px <= (w * h) * px);
}

/// The totals of the three channels, and the number of pixels, of every bin.
struct Totals {
    red: Vec<u64>,
    green: Vec<u64>,
    blue: Vec<u64>,
    count: Vec<u64>,
}

/// The grid of a frame of `w` by `h` pixels.
spec fn grid_of(w: usize, h: usize, tw: usize, th: usize, step: usize) -> Grid {
    Grid {
        w: at_least(w as int, 2),
        h: at_least(h as int, 2),
        tw: tw as int,
        th: th as int,
        step: step as int,
    }
}

/// Visits the frame's pixels and totals them by bin.
fn bin_totals(
    data: &[u8],
    w: usize,
    h: usize,
    px: usize,
    rgb: [usize; 3],
    tw: usize,
    th: usize,
    step: usize,
) -> (totals: Totals)
    requires
        0 < w <= i32::MAX,
        0 < h <= i32::MAX,
        2 <= tw <= i32::MAX,
        2 <= th <= i32::MAX,
        0 < step <= i32::MAX,
        0 < px <= 4,
        rgb[0] < px,
        rgb[1] < px,
        rgb[2] < px,
        w * h * px <= data.len(),
        tw * th * 3 <= usize::MAX,
        bins_are_small(grid_of(w, h, tw, th, step)),
    ensures
        ({
            let grid = grid_of(w, h, tw, th, step);
            let rows = visits(grid.h, grid.step);
            let d = data@;
            &&& holds_totals(
                totals.red@,
                channel_values(d, w as int, h as int, px as int, rgb[0] as int),
                grid,
                rows,
                0,
            )
            &&& holds_totals(
                totals.green@,
                channel_values(d, w as int, h as int, px as int, rgb[1] as int),
                grid,
                rows,
                0,
            )
            &&& holds_totals(
                totals.blue@,
                channel_values(d, w as int, h as int, px as int, rgb[2] as int),
                grid,
                rows,
                0,
            )
            &&& holds_totals(totals.count@, ones(), grid, rows, 0)
        }),
{
    let ghost grid = grid_of(w, h, tw, th, step);
    let cols: usize = if w < 2 { 2 } else { w };
    let rows: usize = if h < 2 { 2 } else { h };
    let ghost gr = channel_values(data@, w as int, h as int, px as int, rgb[0] as int);
    let ghost gg = channel_values(data@, w as int, h as int, px as int, rgb[1] as int);
    let ghost gb = channel_values(data@, w as int, h as int, px as int, rgb[2] as int);
    let (ri, gi, bi): (usize, usize, usize) = (rgb[0], rgb[1], rgb[2]);
    let n: usize = tw * th;
    let mut red: Vec<u64> = vec![0; n];
    let mut green: Vec<u64> = vec![0; n];
    let mut blue: Vec<u64> = vec![0; n];
    let mut count: Vec<u64> = vec![0; n];
    proof {
        lemma_totals_start(red@, gr, grid);
        lemma_totals_start(green@, gg, grid);
        lemma_totals_start(blue@, gb, grid);
        lemma_totals_start(count@, ones(), grid);
    }
    let ghost mut jy: int = 0;
    let mut y: usize = 0;
    while y < rows
        invariant
            0 < w <= i32::MAX,
            0 < h <= i32::MAX,
            2 <= tw <= i32::MAX,
            2 <= th <= i32::MAX,
            0 < step <= i32::MAX,
            0 < px <= 4,
            ri < px,
            gi < px,
            bi < px,
            w * h * px <= data.len(),
            tw * th * 3 <= usize::MAX,
            grid == grid_of(w, h, tw, th, step),
            cols == grid.w,
            rows == grid.h,
            bins_are_small(grid),
            gr == channel_values(data@, w as int, h as int, px as int, ri as int),
            gg == channel_values(data@, w as int, h as int, px as int, gi as int),
            gb == channel_values(data@, w as int, h as int, px as int, bi as int),
            0 <= jy,
            y == jy * step,
            jy <= visits(grid.h, grid.step),
            holds_totals(red@, gr, grid, jy, 0),
            holds_totals(green@, gg, grid, jy, 0),
            holds_totals(blue@, gb, grid, jy, 0),
            holds_totals(count@, ones(), grid, jy, 0),
        decreases rows + step - y,
    {
        proof {
            lemma_product_fits(y as int, th as int);
            lemma_bin_in_range(y as int, grid.h, th as int);
        }
        let ty: usize = (y as u64 * th as u64 / rows as u64) as usize;
        let py: usize = if y < h { y } else { h - 1 };
        let ghost mut jx: int = 0;
        let mut x: usize = 0;
        while x < cols
            invariant
                0 < w <= i32::MAX,
                0 < h <= i32::MAX,
                2 <= tw <= i32::MAX,
                2 <= th <= i32::MAX,
                0 < step <= i32::MAX,
                0 < px <= 4,
                ri < px,
                gi < px,
                bi < px,
                w * h * px <= data.len(),
                tw * th * 3 <= usize::MAX,
                grid == grid_of(w, h, tw, th, step),
            cols == grid.w,
            rows == grid.h,
                bins_are_small(grid),
                gr == channel_values(data@, w as int, h as int, px as int, ri as int),
                gg == channel_values(data@, w as int, h as int, px as int, gi as int),
                gb == channel_values(data@, w as int, h as int, px as int, bi as int),
                y < rows,
                py == clamp_index(y as int, h as int),
                0 <= jy,
                y == jy * step,
                ty == bin_of(y as int, grid.h, th as int),
                0 <= ty < th,
                0 <= jx,
                x == jx * step,
                jx <= visits(grid.w, grid.step),
                holds_totals(red@, gr, grid, jy, jx),
                holds_totals(green@, gg, grid, jy, jx),
                holds_totals(blue@, gb, grid, jy, jx),
                holds_totals(count@, ones(), grid, jy, jx),
            decreases cols + step - x,
        {
            let at: usize = if x < w { x } else { w - 1 };
            proof {
                lemma_product_fits(x as int, tw as int);
                lemma_bin_in_range(x as int, grid.w, tw as int);
                lemma_pixel_within(at as int, py as int, w as int, h as int, px as int);
            }
            let tx: usize = (x as u64 * tw as u64 / cols as u64) as usize;
            proof {
                lemma_unflat(tx as int, ty as int, tw as int, th as int);
                assert(0 <= ty * tw) by (nonlinear_arith);
                assert(0 <= py * w) by (nonlinear_arith);
                assert(py * w + at <= (py * w + at) * px) by (nonlinear_arith)
                    requires
                        px > 0,
                ;
                lemma_running_total_bounds(gr, grid, tx as int, ty as int, jy, jx);
                lemma_running_total_bounds(gg, grid, tx as int, ty as int, jy, jx);
                lemma_running_total_bounds(gb, grid, tx as int, ty as int, jy, jx);
                lemma_running_total_bounds(ones(), grid, tx as int, ty as int, jy, jx);
            }
            let p: usize = (py * w + at) * px;
            let slot: usize = ty * tw + tx;
            let r: u64 = red[slot] + data[p + ri] as u64;
            let g: u64 = green[slot] + data[p + gi] as u64;
            let b: u64 = blue[slot] + data[p + bi] as u64;
            let c: u64 = count[slot] + 1;
            proof {
                assert(gr(x as int, y as int) == data@[p + ri]);
                assert(gg(x as int, y as int) == data@[p + gi]);
                assert(gb(x as int, y as int) == data@[p + bi]);
                assert(ones()(x as int, y as int) == 1);
                lemma_deposit(red@, gr, grid, jy, jx, slot as int, r);
                lemma_deposit(green@, gg, grid, jy, jx, slot as int, g);
                lemma_deposit(blue@, gb, grid, jy, jx, slot as int, b);
                lemma_deposit(count@, ones(), grid, jy, jx, slot as int, c);
                lemma_visits(grid.w, grid.step, jx);
                assert((jx + 1) * step == jx * step + step) by (nonlinear_arith);
                jx = jx + 1;
            }
            red[slot] = r;
            green[slot] = g;
            blue[slot] = b;
            count[slot] = c;
            x = x + step;
        }
        proof {
            lemma_visits(grid.w, grid.step, jx);
            lemma_row_end(red@, gr, grid, jy);
            lemma_row_end(green@, gg, grid, jy);
            lemma_row_end(blue@, gb, grid, jy);
            lemma_row_end(count@, ones(), grid, jy);
            lemma_visits(grid.h, grid.step, jy);
            assert((jy + 1) * step == jy * step + step) by (nonlinear_arith);
            jy = jy + 1;
        }
        y = y + step;
    }
    proof {
        lemma_visits(grid.h, grid.step, jy);
    }
    Totals { red, green, blue, count }
}

/// Where every value of `f` is at most `cap` times that of `e`, so are the sums.
proof fn lemma_picked_sum_scaled(
    f: spec_fn(int) -> int,
    e: spec_fn(int) -> int,
    n: int,
    step: int,
    t: int,
    b: int,
    k: int,
    cap: int,
)
    requires
        forall|i: int| 0 <= #[trigger] f(i) <= cap * e(i),
        forall|i: int| 0 <= #[trigger] e(i),
    ensures
        0 <= picked_sum(f, n, step, t, b, k) <= cap * picked_sum(e, n, step, t, b, k),
        0 <= picked_sum(e, n, step, t, b, k),
    decreases k,
{
    if k > 0 {
        lemma_picked_sum_scaled(f, e, n, step, t, b, k - 1, cap);
        let i = (k - 1) * step;
        let p = picked_sum(e, n, step, t, b, k - 1);
        assert(cap * (p + e(i)) == cap * p + cap * e(i)) by (nonlinear_arith);
        assert(0 <= f(i) <= cap * e(i));
        assert(0 <= e(i));
    } else {
        assert(cap * 0 == 0) by (nonlinear_arith);
    }
}

/// A bin's total is at most 255 for each of its pixels, so its mean is a byte.
pub(crate) proof fn lemma_bin_mean_is_byte(g: spec_fn(int, int) -> int, grid: Grid, bx: int, by: int)
    requires
        forall|x: int, y: int| 0 <= #[trigger] g(x, y) <= 255,
    ensures
        0 <= bin_total(g, grid, bx, by) <= 255 * bin_count(grid, bx, by),
        0 <= bin_count(grid, bx, by),
        bin_count(grid, bx, by) >= 1 ==> 0 <= bin_mean(g, grid, bx, by) <= 255,
{
    let f = row_totals(g, grid, bx);
    let e = row_totals(ones(), grid, bx);
    let cols = visits(grid.w, grid.step);
    assert forall|y: int| 0 <= #[trigger] f(y) <= 255 * e(y) && 0 <= e(y) by {
        let fy = row_of(g, y);
        let ey = row_of(ones(), y);
        assert forall|x: int| 0 <= #[trigger] fy(x) <= 255 * ey(x) by {
            assert(fy(x) == g(x, y));
            assert(ey(x) == 1);
        }
        lemma_picked_sum_scaled(fy, ey, grid.w, grid.step, grid.tw, bx, cols, 255);
    }
    assert forall|y: int| 0 <= #[trigger] e(y) by {
        assert(0 <= f(y) <= 255 * e(y) && 0 <= e(y));
    }
    lemma_picked_sum_scaled(
        f,
        e,
        grid.h,
        grid.step,
        grid.th,
        by,
        visits(grid.h, grid.step),
        255,
    );
    let total = bin_total(g, grid, bx, by);
    let count = bin_count(grid, bx, by);
    if count >= 1 {
        assert(0 <= total / count <= 255) by (nonlinear_arith)
            requires
                0 <= total <= 255 * count,
                1 <= count,
        ;
    }
}

/// Pixel `i` of packed RGB bytes as one number, red highest.
pub open spec fn pixel_word(rgb: Seq<u8>, i: int) -> u64 {
    (rgb[i * 3] * 65536 + rgb[i * 3 + 1] * 256 + rgb[i * 3 + 2]) as u64
}

/// The FNV-1a hash of the first `n` pixels, a pixel at a time.
pub open spec fn content_hash(rgb: Seq<u8>, n: int) -> u64
    decreases n,
{
    if n <= 0 {
        0xcbf2_9ce4_8422_2325
    } else {
        (content_hash(rgb, n - 1) ^ pixel_word(rgb, n - 1)).wrapping_mul(0x0000_0100_0000_01B3)
    }
}

proof fn lemma_content_hash_prefix(a: Seq<u8>, b: Seq<u8>, n: int)
    requires
        n * 3 <= a.len(),
        n * 3 <= b.len(),
        forall|j: int| 0 <= j < n * 3 ==> a[j] == b[j],
    ensures
        content_hash(a, n) == content_hash(b, n),
    decreases n,
{
    if n > 0 {
        lemma_content_hash_prefix(a, b, n - 1);
    }
}

/// The three places of pixel `i`, read back from their flat index.
proof fn lemma_pixel_places(i: int)
    ensures
        (i * 3) / 3 == i,
        (i * 3 + 1) / 3 == i,
        (i * 3 + 2) / 3 == i,
        (i * 3) % 3 == 0,
        (i * 3 + 1) % 3 == 1,
        (i * 3 + 2) % 3 == 2,
{
}

/// What a frame comes to: the hash of its reduced picture and, unless that is
/// `prev_hash`, the picture blurred.
pub open spec fn processing(
    frame: Frame,
    target_w: usize,
    sigma_tenths: u32,
    prev_hash: u64,
) -> Option<(u64, Option<Image>)> {
    match reduction(frame, target_w as int) {
        None => None,
        Some(image) => {
            let hash = content_hash(image.rgb, image.w * image.h);
            if hash == prev_hash {
                Some((hash, None))
            } else {
                let r = spec_blur_radius(sigma_tenths as int);
                Some((hash, Some(Image { rgb: blurred(image.rgb, image.w, image.h, r), ..image })))
            }
        },
    }
}

/// The rounded down mean of a bin from its total and count.
fn mean(total: u64, count: u64) -> (m: u8)
    requires
        count >= 1,
        total <= 255 * count,
    ensures
        m == total / count,
{
    assert(0 <= total / count <= 255) by (nonlinear_arith)
        requires
            total <= 255 * count,
            count >= 1,
    ;
    (total / count) as u8
}

/// The reduced width and height and the step for a frame of `w` by `h` pixels.
fn plan_grid(w: usize, h: usize, target_w: usize) -> (plan: (usize, usize, usize))
    requires
        0 < w <= i32::MAX,
        0 < h <= i32::MAX,
    ensures
        ({
            let grid = grid_for(w as int, h as int, target_w as int);
            plan.0 == grid.tw && plan.1 == grid.th && plan.2 == grid.step
        }),
{
    let tw: usize = if target_w < 2 {
        2
    } else if target_w > w {
        if w < 2 { 2 } else { w }
    } else {
        target_w
    };
    proof {
        lemma_product_fits(h as int, tw as int);
    }
    let rows: u64 = (h as u64 * tw as u64 + w as u64 / 2) / w as u64;
    let th: usize = if rows < 2 {
        2
    } else if rows > h as u64 {
        if h < 2 { 2 } else { h }
    } else {
        rows as usize
    };
    let across: u64 = w as u64 / (tw as u64 * 3);
    let down: u64 = h as u64 / (th as u64 * 3);
    assert(across <= w && down <= h) by (nonlinear_arith)
        requires
            across == w as int / (tw * 3),
            down == h as int / (th * 3),
            tw > 0,
            th > 0,
    ;
    let least: u64 = if across < down { across } else { down };
    let step: usize = if least < 1 { 1 } else { least as usize };
    (tw, th, step)
}

/// The reduced picture from the totals of its bins, and its hash.
fn average(totals: &Totals, n: usize, Ghost(frame): Ghost<Frame>, Ghost(grid): Ghost<Grid>) -> (out: (
    Vec<u8>,
    u64,
))
    requires
        grid.ok(),
        forall|bx: int, by: int|
            0 <= bx < grid.tw && 0 <= by < grid.th ==> #[trigger] bin_count(grid, bx, by) >= 1,
        n == grid.tw * grid.th,
        n * 3 <= usize::MAX,
        ({
            let rows = visits(grid.h, grid.step);
            &&& holds_totals(totals.red@, frame_channel(frame, 0), grid, rows, 0)
            &&& holds_totals(totals.green@, frame_channel(frame, 1), grid, rows, 0)
            &&& holds_totals(totals.blue@, frame_channel(frame, 2), grid, rows, 0)
            &&& holds_totals(totals.count@, ones(), grid, rows, 0)
        }),
    ensures
        out.0@ == Seq::new((n * 3) as nat, |j: int| reduced_byte(frame, grid, j)),
        out.1 == content_hash(out.0@, n as int),
{
    let ghost gr = frame_channel(frame, 0);
    let ghost gg = frame_channel(frame, 1);
    let ghost gb = frame_channel(frame, 2);
    let mut rgb: Vec<u8> = vec![0; n * 3];
    let mut hash: u64 = 0xcbf2_9ce4_8422_2325;
    let mut i: usize = 0;
    while i < n
        invariant
            i <= n,
            n == grid.tw * grid.th,
            n * 3 <= usize::MAX,
            rgb.len() == n * 3,
            grid.ok(),
            forall|bx: int, by: int|
                0 <= bx < grid.tw && 0 <= by < grid.th ==> #[trigger] bin_count(grid, bx, by)
                    >= 1,
            gr == frame_channel(frame, 0),
            gg == frame_channel(frame, 1),
            gb == frame_channel(frame, 2),
            holds_totals(totals.red@, gr, grid, visits(grid.h, grid.step), 0),
            holds_totals(totals.green@, gg, grid, visits(grid.h, grid.step), 0),
            holds_totals(totals.blue@, gb, grid, visits(grid.h, grid.step), 0),
            holds_totals(totals.count@, ones(), grid, visits(grid.h, grid.step), 0),
            forall|j: int| 0 <= j < i * 3 ==> rgb@[j] == reduced_byte(frame, grid, j),
            hash == content_hash(rgb@, i as int),
        decreases n - i,
    {
        let ghost bx = i as int % grid.tw;
        let ghost by = i as int / grid.tw;
        proof {
            lemma_flat(i as int, grid.tw);
            assert(by < grid.th) by (nonlinear_arith)
                requires
                    i < grid.tw * grid.th,
                    by == i as int / grid.tw,
                    0 < grid.tw,
            ;
            lemma_bin_mean_is_byte(gr, grid, bx, by);
            lemma_bin_mean_is_byte(gg, grid, bx, by);
            lemma_bin_mean_is_byte(gb, grid, bx, by);
            lemma_totals_end(totals.red@, gr, grid, i as int);
            lemma_totals_end(totals.green@, gg, grid, i as int);
            lemma_totals_end(totals.blue@, gb, grid, i as int);
            lemma_totals_end(totals.count@, ones(), grid, i as int);
            lemma_pixel_places(i as int);
        }
        let c: u64 = totals.count[i];
        let r: u8 = mean(totals.red[i], c);
        let g: u8 = mean(totals.green[i], c);
        let b: u8 = mean(totals.blue[i], c);
        let ghost before = rgb@;
        rgb[i * 3] = r;
        rgb[i * 3 + 1] = g;
        rgb[i * 3 + 2] = b;
        let word: u64 = ((r as u64) << 16) | ((g as u64) << 8) | (b as u64);
        proof {
            assert(((r as u64) << 16) | ((g as u64) << 8) | (b as u64) == r as u64 * 65536
                + g as u64 * 256 + b as u64) by (bit_vector);
            lemma_content_hash_prefix(before, rgb@, i as int);
            assert(word == pixel_word(rgb@, i as int));
            assert(r == bin_mean(gr, grid, bx, by) as u8);
            assert(g == bin_mean(gg, grid, bx, by) as u8);
            assert(b == bin_mean(gb, grid, bx, by) as u8);
        }
        hash = (hash ^ word).wrapping_mul(0x0000_0100_0000_01B3);
        i = i + 1;
    }
    assert(rgb@ =~= Seq::new((n * 3) as nat, |j: int| reduced_byte(frame, grid, j)));
    (rgb, hash)
}

/// Reduces a frame to about `target_w` columns of averaged pixels and blurs them.
/// Without a readable frame there is nothing. If the reduced picture hashes to
/// `prev_hash` it is taken for the one before, and neither blurred nor returned.
pub fn process_frame(
    frame: &Frame,
    target_w: usize,
    sigma_tenths: u32,
    prev_hash: u64,
) -> (processed: Option<Processed>)
    requires
        processing(*frame, target_w, sigma_tenths, prev_hash) matches Some((_, Some(_)))
            ==> radius_fits(spec_blur_radius(sigma_tenths as int)),
    ensures
        processed is Some <==> processing(*frame, target_w, sigma_tenths, prev_hash) is Some,
        processed matches Some(out) ==> {
            let (hash, image) = processing(*frame, target_w, sigma_tenths, prev_hash)->0;
            &&& out.hash == hash
            &&& out.tiny is Some <==> image is Some
            &&& out.tiny matches Some(tiny) ==> tiny@ == image->0 && tiny.wf()
        },
{
    let (w, h, data, px, rgb_at): (usize, usize, &[u8], usize, [usize; 3]) = match frame_parts(
        frame,
    ) {
        None => return None,
        Some(parts) => parts,
    };
    proof {
        lemma_grid_for(w as int, h as int, target_w as int);
        lemma_product_fits(w as int, h as int);
    }
    let ghost grid = grid_for(w as int, h as int, target_w as int);
    assert(w * h * px <= (w * h) * 4) by (nonlinear_arith)
        requires
            0 <= w * h,
            px <= 4,
    ;
    let needed: u64 = w as u64 * h as u64 * px as u64;
    if (data.len() as u64) < needed {
        return None;
    }
    let (tw, th, step): (usize, usize, usize) = plan_grid(w, h, target_w);
    proof {
        lemma_product_fits(tw as int, th as int);
    }
    let bytes: u64 = tw as u64 * th as u64 * 3;
    if bytes > usize::MAX as u64 {
        return None;
    }
    let n: usize = tw * th;
    proof {
        assert forall|bx: int, by: int|
            0 <= bx < grid.tw && 0 <= by < grid.th implies #[trigger] bin_count(grid, bx, by)
            >= 1 by {
            law_no_bin_is_empty(w as int, h as int, target_w as int, bx, by);
        }
    }
    let totals = bin_totals(data, w, h, px, rgb_at, tw, th, step);
    let (mut rgb, hash): (Vec<u8>, u64) = average(&totals, n, Ghost(*frame), Ghost(grid));
    if hash == prev_hash {
        return Some(Processed { hash, tiny: None });
    }
    let ghost reduced = rgb@;
    assert(reduced.take(tw * th * 3) =~= reduced);
    assert(reduction(*frame, target_w as int)->0.rgb =~= reduced);
    box_blur(rgb.as_mut_slice(), tw, th, sigma_tenths);
    assert(rgb@ =~= blurred(
        reduced,
        tw as int,
        th as int,
        spec_blur_radius(sigma_tenths as int),
    ));
    Some(Processed { hash, tiny: Some(Tiny { w: tw, h: th, rgb }) })
}

} // verus!
