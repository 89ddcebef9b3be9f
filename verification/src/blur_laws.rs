//! What blurring does to a picture: every byte becomes the mean of those round it, along
//! both axes, twice over.
use vstd::prelude::*;

use crate::blur::{
    blurred, column_samples, law_window_mean_is_near_the_mean, overlaid, pass_h, pass_v, reciprocal, row_samples, span_sum,
    spec_blur_radius, window_mean,
};

verus! {

/// The position `i`, or the nearest of `n` where it lies outside.
pub open spec fn held_in(i: int, n: int) -> int {
    if i < 0 {
        0
    } else if i > n - 1 {
        n - 1
    } else {
        i
    }
}

/// `f` summed over the `count` positions from `from` on.
pub open spec fn summed(f: spec_fn(int) -> int, from: int, count: int) -> int
    decreases count,
{
    if count <= 0 {
        0
    } else {
        summed(f, from, count - 1) + f(from + count - 1)
    }
}

/// The sums of `g` over `r` columns on both sides, in a picture `w` wide whose edges go on.
pub open spec fn across(g: spec_fn(int, int) -> int, w: int, r: int) -> spec_fn(int, int) -> int {
    |x: int, y: int| summed(|i: int| g(held_in(i, w), y), x - r, 2 * r + 1)
}

/// The sums of `g` over `r` rows on both sides, in a picture `h` high whose edges go on.
pub open spec fn down(g: spec_fn(int, int) -> int, h: int, r: int) -> spec_fn(int, int) -> int {
    |x: int, y: int| summed(|i: int| g(x, held_in(i, h)), y - r, 2 * r + 1)
}

/// Channel `c` of a picture `w` wide.
pub open spec fn channel_of(image: Seq<u8>, w: int, c: int) -> spec_fn(int, int) -> int {
    |x: int, y: int| image[(y * w + x) * 3 + c] as int
}

proof fn lemma_summed_is_span(f: spec_fn(int) -> int, e: spec_fn(int) -> int, from: int, count: int)
    requires
        0 <= count,
        forall|i: int| #[trigger] f(i) == e(i),
    ensures
        summed(f, from, count) == span_sum(e, from, from + count),
    decreases count,
{
    if count > 0 {
        lemma_summed_is_span(f, e, from, count - 1);
        assert(f(from + count - 1) == e(from + count - 1));
    }
}

proof fn lemma_flat_pixel(x: int, y: int, c: int, w: int, h: int)
    by (nonlinear_arith)
    requires
        0 <= x < w,
        0 <= y < h,
        0 <= c < 3,
    ensures
        ({
            let j = (y * w + x) * 3 + c;
            &&& 0 <= j < w * h * 3
            &&& j == y * (w * 3) + (x * 3 + c)
            &&& j / (w * 3) == y
            &&& j % (w * 3) == x * 3 + c
        }),
{
    let j = (y * w + x) * 3 + c;
    assert(0 <= y * w);
    assert(y * w <= (h - 1) * w);
    assert(j == y * (w * 3) + (x * 3 + c));
    assert(0 <= x * 3 + c < w * 3);
}

/// Each byte of a pass is its window's sum times the fixed point factor that stands for
/// the division by the window's size: across for one pass, down for the other.
pub proof fn law_pass_sums_a_window(
    src: Seq<u8>,
    w: int,
    h: int,
    r: int,
    x: int,
    y: int,
    c: int,
)
    requires
        0 <= r,
        0 <= x < w,
        0 <= y < h,
        0 <= c < 3,
    ensures
        ({
            let j = (y * w + x) * 3 + c;
            let g = channel_of(src, w, c);
            let n = 2 * r + 1;
            let factor = (65536 + n / 2) / n;
            &&& pass_h(src, w, h, r).len() == w * h * 3
            &&& pass_v(src, w, h, r).len() == w * h * 3
            &&& pass_h(src, w, h, r)[j] == across(g, w, r)(x, y) * factor / 65536 % 256
            &&& pass_v(src, w, h, r)[j] == down(g, h, r)(x, y) * factor / 65536 % 256
        }),
{
    lemma_flat_pixel(x, y, c, w, h);
    let j = (y * w + x) * 3 + c;
    let g = channel_of(src, w, c);
    let n = 2 * r + 1;
    let fh = |i: int| g(held_in(i, w), y);
    let eh = row_samples(src, y * (w * 3), c, w);
    assert forall|i: int| #[trigger] fh(i) == eh(i) by {
        let k = held_in(i, w);
        assert((y * w + k) * 3 + c == y * (w * 3) + k * 3 + c) by (nonlinear_arith);
    }
    lemma_summed_is_span(fh, eh, x - r, n);
    let fv = |i: int| g(x, held_in(i, h));
    let ev = column_samples(src, x * 3 + c, w * 3, h);
    assert forall|i: int| #[trigger] fv(i) == ev(i) by {
        let k = held_in(i, h);
        assert((k * w + x) * 3 + c == k * (w * 3) + (x * 3 + c)) by (nonlinear_arith);
    }
    lemma_summed_is_span(fv, ev, y - r, n);
    assert(across(g, w, r)(x, y) == summed(fh, x - r, n));
    assert(down(g, h, r)(x, y) == summed(fv, y - r, n));
    assert((x * 3 + c) / 3 == x && (x * 3 + c) % 3 == c);
}

/// The blur is two rounds, each of a pass across and then a pass down, at every size from
/// two by two on; smaller pictures are left as they are.
pub proof fn law_blur_is_two_rounds(image: Seq<u8>, w: int, h: int, r: int)
    ensures
        w >= 2 && h >= 2 ==> blurred(image, w, h, r) == pass_v(
            pass_h(pass_v(pass_h(image, w, h, r), w, h, r), w, h, r),
            w,
            h,
            r,
        ),
        w < 2 || h < 2 ==> blurred(image, w, h, r) == image,
{
}

/// The radius is the whole number nearest to the blur, halves going up, and one at least.
pub proof fn law_radius_is_nearest(sigma_tenths: int)
    requires
        sigma_tenths >= 0,
    ensures
        ({
            let r = spec_blur_radius(sigma_tenths);
            &&& r >= 1
            &&& sigma_tenths < 10 * r + 5
            &&& r == 1 || 10 * r - 5 <= sigma_tenths
        }),
{
}

/// `n` times the byte is within `low` below and `high` above the sum of its window.
proof fn lemma_window_mean_error(sum: int, r: int)
    requires
        1 <= r <= 266,
        0 <= sum <= 255 * (2 * r + 1),
    ensures
        ({
            let n = 2 * r + 1;
            &&& sum - 2 * n <= n * window_mean(sum, r) <= sum + n
            &&& r <= 2 ==> sum - n <= n * window_mean(sum, r) <= sum
        }),
{
    let n = 2 * r + 1;
    let m = sum / n;
    law_window_mean_is_near_the_mean(sum, r);
    let b = window_mean(sum, r) as int;
    assert(n * m <= sum < n * m + n) by (nonlinear_arith)
        requires
            m == sum / n,
            n > 0,
    ;
    assert(n * m - n <= n * b <= n * m + n) by (nonlinear_arith)
        requires
            m - 1 <= b <= m + 1,
            n > 0,
    ;
    if r <= 2 {
        assert(reciprocal(3) == 21845);
        assert(5int / 2 == 2);
        assert(65538int / 5 == 13107);
        assert(reciprocal(5) == 13107);
        let factor = reciprocal(n);
        assert(r == 1 ==> sum * factor == sum * 21845 && n * b == 3 * b) by (nonlinear_arith)
            requires
                r == 1 ==> factor == 21845 && n == 3,
        ;
        assert(r == 2 ==> sum * factor == sum * 13107 && n * b == 5 * b) by (nonlinear_arith)
            requires
                r == 2 ==> factor == 13107 && n == 5,
        ;
    }
}

proof fn lemma_summed_close(
    f: spec_fn(int) -> int,
    e: spec_fn(int) -> int,
    k: int,
    low: int,
    high: int,
    from: int,
    count: int,
)
    requires
        0 <= count,
        forall|i: int| e(i) - low <= #[trigger] (k * f(i)) <= e(i) + high,
    ensures
        summed(e, from, count) - low * count <= k * summed(f, from, count) <= summed(
            e,
            from,
            count,
        ) + high * count,
    decreases count,
{
    if count > 0 {
        lemma_summed_close(f, e, k, low, high, from, count - 1);
        let (s, v) = (summed(f, from, count - 1), f(from + count - 1));
        assert(k * (s + v) == k * s + k * v) by (nonlinear_arith);
        assert(low * count == low * (count - 1) + low) by (nonlinear_arith);
        assert(high * count == high * (count - 1) + high) by (nonlinear_arith);
    } else {
        assert(k * 0 == 0 && low * 0 == 0 && high * 0 == 0) by (nonlinear_arith);
    }
}

proof fn lemma_summed_bytes(f: spec_fn(int) -> int, from: int, count: int)
    requires
        0 <= count,
        forall|i: int| 0 <= #[trigger] f(i) <= 255,
    ensures
        0 <= summed(f, from, count) <= 255 * count,
    decreases count,
{
    if count > 0 {
        lemma_summed_bytes(f, from, count - 1);
        assert(0 <= f(from + count - 1) <= 255);
    }
}

/// How far below and above its window's mean a byte of a pass is at most, in levels.
spec fn pass_error(r: int) -> (int, int) {
    if r <= 2 {
        (1, 0)
    } else {
        (2, 1)
    }
}

/// `k` times `g` is within `low` below and `high` above `t`, all over the picture.
spec fn is_close(
    g: spec_fn(int, int) -> int,
    t: spec_fn(int, int) -> int,
    w: int,
    h: int,
    k: int,
    low: int,
    high: int,
) -> bool {
    forall|x: int, y: int|
        0 <= x < w && 0 <= y < h ==> t(x, y) - low <= k * (#[trigger] g(x, y)) <= t(x, y) + high
}

proof fn lemma_pass_is_close(src: Seq<u8>, w: int, h: int, r: int, c: int)
    requires
        w >= 1,
        h >= 1,
        1 <= r <= 266,
        0 <= c < 3,
    ensures
        ({
            let n = 2 * r + 1;
            let g = channel_of(src, w, c);
            let (low, high) = pass_error(r);
            &&& is_close(
                channel_of(pass_h(src, w, h, r), w, c),
                across(g, w, r),
                w,
                h,
                n,
                low * n,
                high * n,
            )
            &&& is_close(
                channel_of(pass_v(src, w, h, r), w, c),
                down(g, h, r),
                w,
                h,
                n,
                low * n,
                high * n,
            )
        }),
{
    let n = 2 * r + 1;
    let g = channel_of(src, w, c);
    let (low, high) = pass_error(r);
    let (gh, gv) = (
        channel_of(pass_h(src, w, h, r), w, c),
        channel_of(pass_v(src, w, h, r), w, c),
    );
    assert forall|x: int, y: int| 0 <= x < w && 0 <= y < h implies {
        &&& across(g, w, r)(x, y) - low * n <= n * (#[trigger] gh(x, y)) <= across(g, w, r)(x, y)
            + high * n
        &&& down(g, h, r)(x, y) - low * n <= n * gv(x, y) <= down(g, h, r)(x, y) + high * n
    } by {
        law_pass_sums_a_window(src, w, h, r, x, y, c);
        let fh = |i: int| g(held_in(i, w), y);
        let fv = |i: int| g(x, held_in(i, h));
        lemma_summed_bytes(fh, x - r, n);
        lemma_summed_bytes(fv, y - r, n);
        let (sh, sv) = (across(g, w, r)(x, y), down(g, h, r)(x, y));
        assert(sh == summed(fh, x - r, n) && sv == summed(fv, y - r, n));
        lemma_window_mean_error(sh, r);
        lemma_window_mean_error(sv, r);
        assert(gh(x, y) == window_mean(sh, r) && gv(x, y) == window_mean(sv, r));
    }
    assert forall|x: int, y: int| 0 <= x < w && 0 <= y < h implies down(g, h, r)(x, y) - low * n
        <= n * (#[trigger] gv(x, y)) <= down(g, h, r)(x, y) + high * n by {
        assert(across(g, w, r)(x, y) - low * n <= n * gh(x, y));
    }
}

/// Closeness to sums of closeness, along the columns of a row.
proof fn lemma_across_is_close(
    g: spec_fn(int, int) -> int,
    t: spec_fn(int, int) -> int,
    next: spec_fn(int, int) -> int,
    w: int,
    h: int,
    r: int,
    k: int,
    low: int,
    high: int,
    e: (int, int),
)
    requires
        w >= 1,
        h >= 1,
        r >= 0,
        k >= 0,
        is_close(g, t, w, h, k, low, high),
        is_close(next, across(g, w, r), w, h, 2 * r + 1, e.0 * (2 * r + 1), e.1 * (2 * r + 1)),
    ensures
        ({
            let n = 2 * r + 1;
            is_close(
                next,
                across(t, w, r),
                w,
                h,
                k * n,
                low * n + k * (e.0 * n),
                high * n + k * (e.1 * n),
            )
        }),
{
    let n = 2 * r + 1;
    assert forall|x: int, y: int| 0 <= x < w && 0 <= y < h implies across(t, w, r)(x, y) - (low * n
        + k * (e.0 * n)) <= (k * n) * (#[trigger] next(x, y)) <= across(t, w, r)(x, y) + (high * n
        + k * (e.1 * n)) by {
        let f = |i: int| g(held_in(i, w), y);
        let d = |i: int| t(held_in(i, w), y);
        assert forall|i: int| d(i) - low <= #[trigger] (k * f(i)) <= d(i) + high by {
            assert(t(held_in(i, w), y) - low <= k * g(held_in(i, w), y));
        }
        lemma_summed_close(f, d, k, low, high, x - r, n);
        let (s, v) = (across(g, w, r)(x, y), next(x, y));
        assert(s == summed(f, x - r, n));
        assert(across(t, w, r)(x, y) == summed(d, x - r, n));
        lemma_scaled_close(k, n, v, s, e.0 * n, e.1 * n);
    }
}

/// Closeness to sums of closeness, along the rows of a column.
proof fn lemma_down_is_close(
    g: spec_fn(int, int) -> int,
    t: spec_fn(int, int) -> int,
    next: spec_fn(int, int) -> int,
    w: int,
    h: int,
    r: int,
    k: int,
    low: int,
    high: int,
    e: (int, int),
)
    requires
        w >= 1,
        h >= 1,
        r >= 0,
        k >= 0,
        is_close(g, t, w, h, k, low, high),
        is_close(next, down(g, h, r), w, h, 2 * r + 1, e.0 * (2 * r + 1), e.1 * (2 * r + 1)),
    ensures
        ({
            let n = 2 * r + 1;
            is_close(
                next,
                down(t, h, r),
                w,
                h,
                k * n,
                low * n + k * (e.0 * n),
                high * n + k * (e.1 * n),
            )
        }),
{
    let n = 2 * r + 1;
    assert forall|x: int, y: int| 0 <= x < w && 0 <= y < h implies down(t, h, r)(x, y) - (low * n
        + k * (e.0 * n)) <= (k * n) * (#[trigger] next(x, y)) <= down(t, h, r)(x, y) + (high * n
        + k * (e.1 * n)) by {
        let f = |i: int| g(x, held_in(i, h));
        let d = |i: int| t(x, held_in(i, h));
        assert forall|i: int| d(i) - low <= #[trigger] (k * f(i)) <= d(i) + high by {
            assert(t(x, held_in(i, h)) - low <= k * g(x, held_in(i, h)));
        }
        lemma_summed_close(f, d, k, low, high, y - r, n);
        let (s, v) = (down(g, h, r)(x, y), next(x, y));
        assert(s == summed(f, y - r, n));
        assert(down(t, h, r)(x, y) == summed(d, y - r, n));
        lemma_scaled_close(k, n, v, s, e.0 * n, e.1 * n);
    }
}

proof fn lemma_scaled_close(k: int, n: int, v: int, s: int, low: int, high: int)
    by (nonlinear_arith)
    requires
        k >= 0,
        s - low <= n * v <= s + high,
    ensures
        k * s - k * low <= (k * n) * v <= k * s + k * high,
{
    assert((k * n) * v == k * (n * v));
    assert(k * (s - low) <= k * (n * v) <= k * (s + high));
    assert(k * (s - low) == k * s - k * low);
    assert(k * (s + high) == k * s + k * high);
}

/// The blur spreads in both directions, at every size: but for a few levels, every byte is
/// the mean, over the windows of `2 * r + 1` by `2 * r + 1` round all the pixels of the
/// window of that size round its own, of its channel, where positions past an edge read
/// the edge. With the radii of one and two it is never above that mean, and never more than
/// four levels below it.
pub proof fn law_blur_is_near_the_mean(
    image: Seq<u8>,
    w: int,
    h: int,
    r: int,
    x: int,
    y: int,
    c: int,
)
    requires
        w >= 2,
        h >= 2,
        1 <= r <= 266,
        0 <= x < w,
        0 <= y < h,
        0 <= c < 3,
    ensures
        ({
            let n = 2 * r + 1;
            let shares = n * n * n * n;
            let sum = down(across(down(across(channel_of(image, w, c), w, r), h, r), w, r), h, r)(
                x,
                y,
            );
            let byte = blurred(image, w, h, r)[(y * w + x) * 3 + c];
            &&& sum - 8 * shares <= shares * byte <= sum + 4 * shares
            &&& r <= 2 ==> sum - 4 * shares <= shares * byte <= sum
        }),
{
    let n = 2 * r + 1;
    let e = pass_error(r);
    let g0 = channel_of(image, w, c);
    let p1 = pass_h(image, w, h, r);
    let p2 = pass_v(p1, w, h, r);
    let p3 = pass_h(p2, w, h, r);
    let p4 = pass_v(p3, w, h, r);
    let (g1, g2) = (channel_of(p1, w, c), channel_of(p2, w, c));
    let (g3, g4) = (channel_of(p3, w, c), channel_of(p4, w, c));
    let t1 = across(g0, w, r);
    let t2 = down(t1, h, r);
    let t3 = across(t2, w, r);
    lemma_pass_is_close(image, w, h, r, c);
    lemma_pass_is_close(p1, w, h, r, c);
    lemma_pass_is_close(p2, w, h, r, c);
    lemma_pass_is_close(p3, w, h, r, c);
    let k1 = n;
    let (l1, u1) = (e.0 * n, e.1 * n);
    lemma_down_is_close(g1, t1, g2, w, h, r, k1, l1, u1, e);
    let k2 = k1 * n;
    let (l2, u2) = (l1 * n + k1 * (e.0 * n), u1 * n + k1 * (e.1 * n));
    assert(k1 >= 0 && k2 >= 0 && k2 * n >= 0) by (nonlinear_arith)
        requires
            k1 == n,
            k2 == k1 * n,
            n > 0,
    ;
    lemma_across_is_close(g2, t2, g3, w, h, r, k2, l2, u2, e);
    let k3 = k2 * n;
    let (l3, u3) = (l2 * n + k2 * (e.0 * n), u2 * n + k2 * (e.1 * n));
    lemma_down_is_close(g3, t3, g4, w, h, r, k3, l3, u3, e);
    let k4 = k3 * n;
    let (l4, u4) = (l3 * n + k3 * (e.0 * n), u3 * n + k3 * (e.1 * n));
    lemma_four_errors(n, e.0);
    lemma_four_errors(n, e.1);
    let (low, high, shares) = (e.0, e.1, n * n * n * n);
    assert((low == 1 ==> low * shares == shares) && (low == 2 ==> low * shares == 2 * shares) && (
    high == 0 ==> high * shares == 0) && (high == 1 ==> high * shares == shares))
        by (nonlinear_arith);
    assert(shares >= 0) by (nonlinear_arith)
        requires
            shares == n * n * n * n,
    ;
    assert(g4(x, y) == blurred(image, w, h, r)[(y * w + x) * 3 + c]);
    assert(down(t3, h, r)(x, y) - l4 <= k4 * g4(x, y) <= down(t3, h, r)(x, y) + u4);
}

proof fn lemma_four_errors(n: int, e: int)
    ensures
        ({
            let l1 = e * n;
            let l2 = l1 * n + n * (e * n);
            let l3 = l2 * n + n * n * (e * n);
            l3 * n + n * n * n * (e * n) == 4 * (e * (n * n * n * n))
        }),
{
    let q = n * n;
    let c3 = n * n * n;
    let f = n * n * n * n;
    assert((e * n) * n == e * q && n * (e * n) == e * q) by (nonlinear_arith)
        requires
            q == n * n,
    ;
    let l2 = (e * n) * n + n * (e * n);
    assert(l2 * n == 2 * (e * c3) && n * n * (e * n) == e * c3) by (nonlinear_arith)
        requires
            l2 == 2 * (e * q),
            q == n * n,
            c3 == n * n * n,
    ;
    let l3 = l2 * n + n * n * (e * n);
    assert(l3 * n == 3 * (e * f) && n * n * n * (e * n) == e * f) by (nonlinear_arith)
        requires
            l3 == 3 * (e * c3),
            c3 == n * n * n,
            f == n * n * n * n,
    ;
}

/// Laying an image over bytes replaces as many of the first bytes as it has, and no others.
pub proof fn law_image_is_laid_over_the_front(dst: Seq<u8>, image: Seq<u8>)
    requires
        image.len() <= dst.len(),
    ensures
        overlaid(dst, image).len() == dst.len(),
        forall|j: int| 0 <= j < image.len() ==> #[trigger] overlaid(dst, image)[j] == image[j],
        forall|j: int|
            image.len() <= j < dst.len() ==> #[trigger] overlaid(dst, image)[j] == dst[j],
{
}

} // verus!
