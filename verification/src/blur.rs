//! Box blur over packed RGB bytes, done with running sums.
use vstd::prelude::*;

verus! {

/// The index `i` moved into `0..n`: positions past an edge read the edge.
pub open spec fn clamp_index(i: int, n: int) -> int {
    if i < 0 {
        0
    } else if i >= n {
        n - 1
    } else {
        i
    }
}

/// `f(lo) + f(lo + 1) + ... + f(hi - 1)`.
pub open spec fn span_sum(f: spec_fn(int) -> int, lo: int, hi: int) -> int
    decreases hi - lo,
{
    if hi <= lo {
        0
    } else {
        span_sum(f, lo, hi - 1) + f(hi - 1)
    }
}

/// The 16-bit fixed point factor that stands for a division by `norm`.
pub open spec fn reciprocal(norm: int) -> int {
    (65536 + norm / 2) / norm
}

/// The byte that a window of `2 * r + 1` samples with the total `sum` gives.
pub open spec fn window_mean(sum: int, r: int) -> u8 {
    ((sum * reciprocal(2 * r + 1) / 65536) % 256) as u8
}

/// The samples of one channel of the row that begins at byte `base`, by column.
pub open spec fn row_samples(src: Seq<u8>, base: int, c: int, w: int) -> spec_fn(int) -> int {
    |i: int| src[base + clamp_index(i, w) * 3 + c] as int
}

/// The bytes at offset `i` of the rows of `stride` bytes, by row.
pub open spec fn column_samples(src: Seq<u8>, i: int, stride: int, h: int) -> spec_fn(int) -> int {
    |k: int| src[clamp_index(k, h) * stride + i] as int
}

/// Byte `j` of the horizontal pass over an image `w` pixels wide.
pub open spec fn pass_h_at(src: Seq<u8>, w: int, r: int, j: int) -> u8 {
    let y = j / (w * 3);
    let x = j % (w * 3) / 3;
    let c = j % (w * 3) % 3;
    window_mean(span_sum(row_samples(src, y * (w * 3), c, w), x - r, x + r + 1), r)
}

/// Byte `j` of the vertical pass over an image of `w` by `h` pixels.
pub open spec fn pass_v_at(src: Seq<u8>, w: int, h: int, r: int, j: int) -> u8 {
    let y = j / (w * 3);
    let i = j % (w * 3);
    window_mean(span_sum(column_samples(src, i, w * 3, h), y - r, y + r + 1), r)
}

/// The image that the horizontal pass gives.
pub open spec fn pass_h(src: Seq<u8>, w: int, h: int, r: int) -> Seq<u8> {
    Seq::new((w * h * 3) as nat, |j: int| pass_h_at(src, w, r, j))
}

/// The image that the vertical pass gives.
pub open spec fn pass_v(src: Seq<u8>, w: int, h: int, r: int) -> Seq<u8> {
    Seq::new((w * h * 3) as nat, |j: int| pass_v_at(src, w, h, r, j))
}

/// `dst` with its first bytes replaced by `image`.
pub open spec fn overlaid(dst: Seq<u8>, image: Seq<u8>) -> Seq<u8> {
    image + dst.skip(image.len() as int)
}

/// A window of radius `r` can be totalled, and slid by one, in 32 bits.
pub open spec fn radius_fits(r: int) -> bool {
    255 * (2 * r + 2) <= u32::MAX
}

proof fn lemma_span_sum_bounds(f: spec_fn(int) -> int, lo: int, hi: int)
    requires
        forall|i: int| 0 <= #[trigger] f(i) <= 255,
        lo <= hi,
    ensures
        0 <= span_sum(f, lo, hi) <= 255 * (hi - lo),
    decreases hi - lo,
{
    if lo < hi {
        lemma_span_sum_bounds(f, lo, hi - 1);
    }
}

proof fn lemma_span_sum_split_first(f: spec_fn(int) -> int, lo: int, hi: int)
    requires
        lo < hi,
    ensures
        span_sum(f, lo, hi) == f(lo) + span_sum(f, lo + 1, hi),
    decreases hi - lo,
{
    if lo + 1 < hi {
        lemma_span_sum_split_first(f, lo, hi - 1);
    } else {
        assert(span_sum(f, lo, hi - 1) == 0);
    }
}

proof fn lemma_span_sum_slide(f: spec_fn(int) -> int, lo: int, hi: int)
    requires
        lo < hi,
    ensures
        span_sum(f, lo + 1, hi + 1) == span_sum(f, lo, hi) + f(hi) - f(lo),
{
    lemma_span_sum_split_first(f, lo, hi);
}

proof fn lemma_scaled_fits(sum: int, norm: int, recip: int)
    by (nonlinear_arith)
    requires
        0 <= sum <= 255 * norm,
        1 <= norm,
        recip == (65536 + norm / 2) / norm,
    ensures
        0 <= recip,
        0 <= sum * recip <= 255 * (65536 + norm / 2),
{
    assert(recip * norm <= 65536 + norm / 2);
    assert(sum * recip <= 255 * norm * recip);
    assert(255 * norm * recip == 255 * (recip * norm));
}

/// Offset `i` of row `y` in rows of `stride` bytes.
proof fn lemma_row_major(y: int, i: int, stride: int)
    by (nonlinear_arith)
    requires
        0 <= y,
        0 <= i < stride,
    ensures
        (y * stride + i) / stride == y,
        (y * stride + i) % stride == i,
        0 <= y * stride,
{
}

proof fn lemma_row_within(y: int, h: int, stride: int)
    by (nonlinear_arith)
    requires
        0 <= y < h,
        0 <= stride,
    ensures
        0 <= y * stride,
        y * stride + stride <= h * stride,
        (y + 1) * stride == y * stride + stride,
{
}

/// The window's byte from its total, by the fixed point factor `recip`.
fn scale_down(sum: u32, recip: u32, Ghost(r): Ghost<int>) -> (v: u8)
    requires
        0 <= r,
        radius_fits(r),
        sum <= 255 * (2 * r + 1),
        recip == reciprocal(2 * r + 1),
    ensures
        v == window_mean(sum as int, r),
{
    proof {
        lemma_scaled_fits(sum as int, 2 * r + 1, recip as int);
    }
    let p: u32 = sum * recip;
    assert((p >> 16) as u8 == (p / 65536) % 256) by (bit_vector);
    (p >> 16) as u8
}

/// The fixed point factor for windows of radius `r`.
fn reciprocal_of(r: usize) -> (recip: u32)
    requires
        radius_fits(r as int),
    ensures
        recip == reciprocal(2 * r + 1),
{
    let norm: u32 = 2 * (r as u32) + 1;
    (65536 + norm / 2) / norm
}

/// The total of the window of radius `r` round column 0, for channel `c` of the
/// row that begins at byte `base`.
fn first_row_total(src: &[u8], base: usize, c: usize, w: usize, r: usize) -> (s: u32)
    requires
        1 <= w,
        c < 3,
        base + w * 3 <= src.len(),
        radius_fits(r as int),
    ensures
        s == span_sum(row_samples(src@, base as int, c as int, w as int), -r as int, r + 1),
{
    let ghost f = row_samples(src@, base as int, c as int, w as int);
    let edge: u32 = src[base + c] as u32;
    let mut s: u32 = 0;
    let mut k: usize = 0;
    while k < r
        invariant
            k <= r,
            radius_fits(r as int),
            1 <= w,
            c < 3,
            base + w * 3 <= src.len(),
            f == row_samples(src@, base as int, c as int, w as int),
            edge == src@[base + c],
            s == span_sum(f, -r as int, k - r),
            s <= 255 * k,
        decreases r - k,
    {
        assert(f(k - r) == edge);
        s = s + edge;
        k = k + 1;
    }
    let mut x: usize = 0;
    while x <= r
        invariant
            x <= r + 1,
            radius_fits(r as int),
            1 <= w,
            c < 3,
            base + w * 3 <= src.len(),
            f == row_samples(src@, base as int, c as int, w as int),
            s == span_sum(f, -r as int, x as int),
            s <= 255 * (r + x),
        decreases r + 1 - x,
    {
        let p: usize = if x < w { x } else { w - 1 };
        assert(f(x as int) == src@[base + p * 3 + c]);
        s = s + src[base + p * 3 + c] as u32;
        x = x + 1;
    }
    s
}

/// Blurs each row of a `w` by `h` image from `src` into `dst`.
pub fn box_pass_h(src: &[u8], dst: &mut [u8], w: usize, h: usize, r: usize)
    requires
        h > 0 ==> w > 0,
        w * h * 3 <= src.len(),
        w * h * 3 <= old(dst).len(),
        radius_fits(r as int),
    ensures
        final(dst)@ == overlaid(old(dst)@, pass_h(src@, w as int, h as int, r as int)),
{
    let recip = reciprocal_of(r);
    let ghost dst0 = dst@;
    let ghost stride = w * 3;
    assert(h * stride == w * h * 3) by (nonlinear_arith)
        requires
            stride == w * 3,
    ;
    let mut y: usize = 0;
    let mut base: usize = 0;
    while y < h
        invariant
            y <= h,
            h > 0 ==> w > 0,
            stride == w * 3,
            base == y * stride,
            h * stride == w * h * 3,
            w * h * 3 <= src.len(),
            w * h * 3 <= dst.len(),
            dst.len() == dst0.len(),
            radius_fits(r as int),
            recip == reciprocal(2 * r + 1),
            forall|j: int| 0 <= j < base ==> dst@[j] == pass_h_at(src@, w as int, r as int, j),
            forall|j: int| base <= j < dst0.len() ==> dst@[j] == dst0[j],
        decreases h - y,
    {
        proof {
            lemma_row_within(y as int, h as int, stride);
        }
        let mut s0: u32 = first_row_total(src, base, 0, w, r);
        let mut s1: u32 = first_row_total(src, base, 1, w, r);
        let mut s2: u32 = first_row_total(src, base, 2, w, r);
        let ghost f0 = row_samples(src@, base as int, 0, w as int);
        let ghost f1 = row_samples(src@, base as int, 1, w as int);
        let ghost f2 = row_samples(src@, base as int, 2, w as int);
        let mut x: usize = 0;
        while x < w
            invariant
                x <= w,
                y < h,
                stride == w * 3,
                base == y * stride,
                base + stride <= h * stride,
                h * stride == w * h * 3,
                w * h * 3 <= src.len(),
                w * h * 3 <= dst.len(),
                dst.len() == dst0.len(),
                radius_fits(r as int),
                recip == reciprocal(2 * r + 1),
                f0 == row_samples(src@, base as int, 0, w as int),
                f1 == row_samples(src@, base as int, 1, w as int),
                f2 == row_samples(src@, base as int, 2, w as int),
                s0 == span_sum(f0, x - r, x + r + 1),
                s1 == span_sum(f1, x - r, x + r + 1),
                s2 == span_sum(f2, x - r, x + r + 1),
                forall|j: int|
                    0 <= j < base + x * 3 ==> dst@[j] == pass_h_at(src@, w as int, r as int, j),
                forall|j: int| base + x * 3 <= j < dst0.len() ==> dst@[j] == dst0[j],
            decreases w - x,
        {
            proof {
                lemma_span_sum_bounds(f0, x - r, x + r + 1);
                lemma_span_sum_bounds(f1, x - r, x + r + 1);
                lemma_span_sum_bounds(f2, x - r, x + r + 1);
                lemma_row_major(y as int, x * 3, stride);
                lemma_row_major(y as int, x * 3 + 1, stride);
                lemma_row_major(y as int, x * 3 + 2, stride);
            }
            dst[base + x * 3] = scale_down(s0, recip, Ghost(r as int));
            dst[base + x * 3 + 1] = scale_down(s1, recip, Ghost(r as int));
            dst[base + x * 3 + 2] = scale_down(s2, recip, Ghost(r as int));
            let a: usize = if x + 1 + r < w { x + 1 + r } else { w - 1 };
            let b: usize = if x >= r { x - r } else { 0 };
            let ap: usize = base + a * 3;
            let rp: usize = base + b * 3;
            proof {
                lemma_span_sum_slide(f0, x - r, x + r + 1);
                lemma_span_sum_slide(f1, x - r, x + r + 1);
                lemma_span_sum_slide(f2, x - r, x + r + 1);
                lemma_span_sum_bounds(f0, x - r + 1, x + r + 2);
                lemma_span_sum_bounds(f1, x - r + 1, x + r + 2);
                lemma_span_sum_bounds(f2, x - r + 1, x + r + 2);
                assert(f0(x + r + 1) == src@[ap as int] && f0(x - r) == src@[rp as int]);
                assert(f1(x + r + 1) == src@[ap + 1] && f1(x - r) == src@[rp + 1]);
                assert(f2(x + r + 1) == src@[ap + 2] && f2(x - r) == src@[rp + 2]);
            }
            s0 = s0 + src[ap] as u32 - src[rp] as u32;
            s1 = s1 + src[ap + 1] as u32 - src[rp + 1] as u32;
            s2 = s2 + src[ap + 2] as u32 - src[rp + 2] as u32;
            x = x + 1;
        }
        base = base + w * 3;
        y = y + 1;
    }
    assert(dst@ =~= overlaid(dst0, pass_h(src@, w as int, h as int, r as int)));
}

/// The totals of the windows of radius `r` round row 0, one for each of the
/// `stride` bytes of a row.
fn first_column_totals(src: &[u8], stride: usize, h: usize, r: usize) -> (s: Vec<u32>)
    requires
        1 <= h,
        h * stride <= src.len(),
        h + r <= isize::MAX,
        radius_fits(r as int),
    ensures
        s.len() == stride,
        forall|i: int|
            0 <= i < stride ==> #[trigger] s@[i] == span_sum(
                column_samples(src@, i, stride as int, h as int),
                -r as int,
                r + 1,
            ),
{
    let mut s: Vec<u32> = vec![0; stride];
    let mut o: usize = 0;
    while o < 2 * r + 1
        invariant
            o <= 2 * r + 1,
            1 <= h,
            h * stride <= src.len(),
            h + r <= isize::MAX,
            radius_fits(r as int),
            s.len() == stride,
            forall|i: int|
                0 <= i < stride ==> #[trigger] s@[i] == span_sum(
                    column_samples(src@, i, stride as int, h as int),
                    -r as int,
                    o - r,
                ),
            forall|i: int| 0 <= i < stride ==> #[trigger] s@[i] <= 255 * o,
        decreases 2 * r + 1 - o,
    {
        let row: usize = if o <= r {
            0
        } else if o - r < h {
            o - r
        } else {
            h - 1
        };
        assert(row == clamp_index(o - r, h as int));
        proof {
            lemma_row_within(row as int, h as int, stride as int);
        }
        let base: usize = row * stride;
        let mut i: usize = 0;
        while i < stride
            invariant
                i <= stride,
                o < 2 * r + 1,
                radius_fits(r as int),
                s.len() == stride,
                row == clamp_index(o - r, h as int),
                base == row * stride,
                base + stride <= src.len(),
                forall|k: int|
                    0 <= k < i ==> #[trigger] s@[k] == span_sum(
                        column_samples(src@, k, stride as int, h as int),
                        -r as int,
                        o + 1 - r,
                    ),
                forall|k: int| 0 <= k < i ==> #[trigger] s@[k] <= 255 * (o + 1),
                forall|k: int|
                    i <= k < stride ==> #[trigger] s@[k] == span_sum(
                        column_samples(src@, k, stride as int, h as int),
                        -r as int,
                        o - r,
                    ),
                forall|k: int| i <= k < stride ==> #[trigger] s@[k] <= 255 * o,
            decreases stride - i,
        {
            let ghost f = column_samples(src@, i as int, stride as int, h as int);
            assert(f(o - r) == src@[base + i]);
            let v: u32 = s[i] + src[base + i] as u32;
            s[i] = v;
            i = i + 1;
        }
        o = o + 1;
    }
    s
}

/// Blurs each column of a `w` by `h` image from `src` into `dst`.
pub fn box_pass_v(src: &[u8], dst: &mut [u8], w: usize, h: usize, r: usize)
    requires
        h > 0,
        w * h * 3 <= src.len(),
        w * h * 3 <= old(dst).len(),
        h + r <= isize::MAX,
        radius_fits(r as int),
    ensures
        final(dst)@ == overlaid(old(dst)@, pass_v(src@, w as int, h as int, r as int)),
{
    let recip = reciprocal_of(r);
    let ghost dst0 = dst@;
    assert(w * 3 <= w * h * 3) by (nonlinear_arith)
        requires
            h > 0,
    ;
    let stride: usize = w * 3;
    assert(h * stride == w * h * 3) by (nonlinear_arith)
        requires
            stride == w * 3,
    ;
    let mut s: Vec<u32> = first_column_totals(src, stride, h, r);
    let mut y: usize = 0;
    let mut base: usize = 0;
    while y < h
        invariant
            y <= h,
            stride == w * 3,
            base == y * stride,
            h * stride == w * h * 3,
            w * h * 3 <= src.len(),
            w * h * 3 <= dst.len(),
            dst.len() == dst0.len(),
            h + r <= isize::MAX,
            radius_fits(r as int),
            recip == reciprocal(2 * r + 1),
            s.len() == stride,
            forall|i: int|
                0 <= i < stride ==> #[trigger] s@[i] == span_sum(
                    column_samples(src@, i, stride as int, h as int),
                    y - r,
                    y + r + 1,
                ),
            forall|j: int|
                0 <= j < base ==> dst@[j] == pass_v_at(src@, w as int, h as int, r as int, j),
            forall|j: int| base <= j < dst0.len() ==> dst@[j] == dst0[j],
        decreases h - y,
    {
        let below: usize = if y + 1 + r < h { y + 1 + r } else { h - 1 };
        let above: usize = if y >= r { y - r } else { 0 };
        proof {
            lemma_row_within(y as int, h as int, stride as int);
            lemma_row_within(below as int, h as int, stride as int);
            lemma_row_within(above as int, h as int, stride as int);
        }
        let add_base: usize = below * stride;
        let rem_base: usize = above * stride;
        let mut i: usize = 0;
        while i < stride
            invariant
                i <= stride,
                y < h,
                stride == w * 3,
                base == y * stride,
                base + stride <= dst.len(),
                dst.len() == dst0.len(),
                below == clamp_index(y + r + 1, h as int),
                above == clamp_index(y - r, h as int),
                add_base == below * stride,
                rem_base == above * stride,
                add_base + stride <= src.len(),
                rem_base + stride <= src.len(),
                radius_fits(r as int),
                recip == reciprocal(2 * r + 1),
                s.len() == stride,
                forall|k: int|
                    0 <= k < i ==> #[trigger] s@[k] == span_sum(
                        column_samples(src@, k, stride as int, h as int),
                        y + 1 - r,
                        y + r + 2,
                    ),
                forall|k: int|
                    i <= k < stride ==> #[trigger] s@[k] == span_sum(
                        column_samples(src@, k, stride as int, h as int),
                        y - r,
                        y + r + 1,
                    ),
                forall|j: int|
                    0 <= j < base + i ==> dst@[j] == pass_v_at(
                        src@,
                        w as int,
                        h as int,
                        r as int,
                        j,
                    ),
                forall|j: int| base + i <= j < dst0.len() ==> dst@[j] == dst0[j],
            decreases stride - i,
        {
            let ghost f = column_samples(src@, i as int, stride as int, h as int);
            proof {
                lemma_span_sum_bounds(f, y - r, y + r + 1);
                lemma_span_sum_slide(f, y - r, y + r + 1);
                lemma_span_sum_bounds(f, y - r + 1, y + r + 2);
                lemma_row_major(y as int, i as int, stride as int);
                assert(f(y + r + 1) == src@[add_base + i]);
                assert(f(y - r) == src@[rem_base + i]);
            }
            let si: u32 = s[i];
            dst[base + i] = scale_down(si, recip, Ghost(r as int));
            s[i] = si + src[add_base + i] as u32 - src[rem_base + i] as u32;
            i = i + 1;
        }
        base = base + stride;
        y = y + 1;
    }
    assert(dst@ =~= overlaid(dst0, pass_v(src@, w as int, h as int, r as int)));
}

/// The window radius for a blur of `sigma_tenths` tenths of a pixel: the nearest
/// whole number, at least one.
pub open spec fn spec_blur_radius(sigma_tenths: int) -> int {
    let nearest = (sigma_tenths + 5) / 10;
    if nearest < 1 {
        1
    } else {
        nearest
    }
}

/// The window radius for a blur of `sigma_tenths` tenths of a pixel.
pub fn blur_radius(sigma_tenths: u32) -> (r: usize)
    ensures
        r == spec_blur_radius(sigma_tenths as int),
{
    let whole: u32 = sigma_tenths / 10;
    let nearest: u32 = if sigma_tenths % 10 >= 5 { whole + 1 } else { whole };
    if nearest < 1 { 1 } else { nearest as usize }
}

/// One round of the blur: a horizontal pass, then a vertical one.
pub open spec fn blur_round(image: Seq<u8>, w: int, h: int, r: int) -> Seq<u8> {
    pass_v(pass_h(image, w, h, r), w, h, r)
}

/// The image after two rounds of the box blur; too small an image is left as it is.
pub open spec fn blurred(image: Seq<u8>, w: int, h: int, r: int) -> Seq<u8> {
    if w < 2 || h < 2 {
        image
    } else {
        blur_round(blur_round(image, w, h, r), w, h, r)
    }
}

/// The passes read nothing past the image itself.
proof fn lemma_pass_reads_image(a: Seq<u8>, b: Seq<u8>, w: int, h: int, r: int)
    requires
        w > 0,
        h > 0,
        r >= 0,
        a.len() >= w * h * 3,
        b.len() >= w * h * 3,
        forall|j: int| 0 <= j < w * h * 3 ==> a[j] == b[j],
    ensures
        pass_h(a, w, h, r) == pass_h(b, w, h, r),
        pass_v(a, w, h, r) == pass_v(b, w, h, r),
{
    let stride = w * 3;
    assert(h * stride == w * h * 3) by (nonlinear_arith)
        requires
            stride == w * 3,
    ;
    assert forall|j: int| 0 <= j < w * h * 3 implies pass_h_at(a, w, r, j) == pass_h_at(
        b,
        w,
        r,
        j,
    ) by {
        let y = j / stride;
        let c = j % stride % 3;
        vstd::arithmetic::div_mod::lemma_fundamental_div_mod(j, stride);
        assert(0 <= y < h && 0 <= j % stride < stride) by (nonlinear_arith)
            requires
                0 <= j < h * stride,
                0 < stride,
                y == j / stride,
        ;
        lemma_row_within(y, h, stride);
        assert(row_samples(a, y * stride, c, w) =~= row_samples(b, y * stride, c, w));
    }
    assert forall|j: int| 0 <= j < w * h * 3 implies pass_v_at(a, w, h, r, j) == pass_v_at(
        b,
        w,
        h,
        r,
        j,
    ) by {
        let i = j % stride;
        assert(0 <= i < stride) by (nonlinear_arith)
            requires
                0 < stride,
                i == j % stride,
        ;
        assert forall|k: int|
            #![trigger column_samples(a, i, stride, h)(k)]
            column_samples(a, i, stride, h)(k) == column_samples(b, i, stride, h)(k) by {
            lemma_row_within(clamp_index(k, h), h, stride);
        }
        assert(column_samples(a, i, stride, h) =~= column_samples(b, i, stride, h));
    }
    assert(pass_h(a, w, h, r) =~= pass_h(b, w, h, r));
    assert(pass_v(a, w, h, r) =~= pass_v(b, w, h, r));
}

/// Blurs the `w` by `h` image at the front of `rgb` in place: two rounds of box
/// blur, which approximate a Gaussian of `sigma_tenths` tenths of a pixel.
pub fn box_blur(rgb: &mut [u8], w: usize, h: usize, sigma_tenths: u32)
    requires
        w >= 2 && h >= 2 ==> {
            &&& w * h * 3 <= old(rgb).len()
            &&& radius_fits(spec_blur_radius(sigma_tenths as int))
        },
    ensures
        w < 2 || h < 2 ==> final(rgb)@ == old(rgb)@,
        w >= 2 && h >= 2 ==> final(rgb)@ == overlaid(
            old(rgb)@,
            blurred(
                old(rgb)@.take(w * h * 3),
                w as int,
                h as int,
                spec_blur_radius(sigma_tenths as int),
            ),
        ),
{
    if w < 2 || h < 2 {
        return ;
    }
    let r: usize = blur_radius(sigma_tenths);
    let ghost (iw, ih, ir) = (w as int, h as int, r as int);
    let ghost n = w * h * 3;
    assert(h <= n && w * 3 <= n && h * 6 <= n) by (nonlinear_arith)
        requires
            n == w * h * 3,
            w >= 2,
            h >= 2,
    ;
    let ghost a0 = rgb@;
    let ghost p0 = a0.take(n);
    let mut tmp: Vec<u8> = vec![0; rgb.len()];
    box_pass_h(rgb, tmp.as_mut_slice(), w, h, r);
    proof {
        lemma_pass_reads_image(a0, p0, iw, ih, ir);
        lemma_pass_reads_image(tmp@, pass_h(p0, iw, ih, ir), iw, ih, ir);
    }
    box_pass_v(tmp.as_slice(), rgb, w, h, r);
    let ghost p1 = blur_round(p0, iw, ih, ir);
    assert(rgb@ =~= overlaid(a0, p1));
    box_pass_h(rgb, tmp.as_mut_slice(), w, h, r);
    proof {
        lemma_pass_reads_image(overlaid(a0, p1), p1, iw, ih, ir);
        lemma_pass_reads_image(tmp@, pass_h(p1, iw, ih, ir), iw, ih, ir);
    }
    box_pass_v(tmp.as_slice(), rgb, w, h, r);
    assert(rgb@ =~= overlaid(a0, blur_round(p1, iw, ih, ir)));
}

proof fn lemma_reciprocal_range(n: int, recip: int)
    by (nonlinear_arith)
    requires
        1 <= n,
        recip == (65536 + n / 2) / n,
    ensures
        recip * n <= 65536 + n / 2,
        recip * n > 65536 + n / 2 - n,
        0 <= recip,
{
}

/// Up to this radius the fixed point factor is off by less than one level of brightness.
proof fn lemma_reciprocal_error(r: int)
    requires
        0 <= r <= 266,
    ensures
        65536 - 257 <= reciprocal(2 * r + 1) * (2 * r + 1) <= 65536 + 256,
        1 <= reciprocal(2 * r + 1),
{
    let n = 2 * r + 1;
    let recip = reciprocal(n);
    lemma_reciprocal_range(n, recip);
    assert(reciprocal(515) == 127 && reciprocal(517) == 127);
    assert(reciprocal(519) == 126 && reciprocal(521) == 126);
    assert(reciprocal(523) == 125 && reciprocal(525) == 125);
    assert(reciprocal(527) == 124 && reciprocal(529) == 124);
    assert(reciprocal(531) == 123 && reciprocal(533) == 123);
    assert(257 <= r <= 258 ==> recip * n == 127 * n) by (nonlinear_arith)
        requires
            257 <= r <= 258 ==> recip == 127,
    ;
    assert(259 <= r <= 260 ==> recip * n == 126 * n) by (nonlinear_arith)
        requires
            259 <= r <= 260 ==> recip == 126,
    ;
    assert(261 <= r <= 262 ==> recip * n == 125 * n) by (nonlinear_arith)
        requires
            261 <= r <= 262 ==> recip == 125,
    ;
    assert(263 <= r <= 264 ==> recip * n == 124 * n) by (nonlinear_arith)
        requires
            263 <= r <= 264 ==> recip == 124,
    ;
    assert(265 <= r <= 266 ==> recip * n == 123 * n) by (nonlinear_arith)
        requires
            265 <= r <= 266 ==> recip == 123,
    ;
    assert(recip >= 1) by (nonlinear_arith)
        requires
            recip * n > 65536 + n / 2 - n,
            1 <= n <= 533,
    ;
}

/// The fixed point factor stands for the division it replaces: for windows of up to
/// 533 samples the byte is within one of the whole part of the mean.
pub proof fn law_window_mean_is_near_the_mean(sum: int, r: int)
    requires
        0 <= r <= 266,
        0 <= sum <= 255 * (2 * r + 1),
    ensures
        sum / (2 * r + 1) - 1 <= window_mean(sum, r) <= sum / (2 * r + 1) + 1,
{
    let n = 2 * r + 1;
    let recip = reciprocal(n);
    let p = sum * recip;
    let m = sum / n;
    lemma_reciprocal_error(r);
    lemma_scaled_fits(sum, n, recip);
    vstd::arithmetic::div_mod::lemma_fundamental_div_mod(sum, n);
    let rest = sum % n;
    assert(0 <= rest < n && sum == n * m + rest && 0 <= m <= 255) by (nonlinear_arith)
        requires
            1 <= n,
            0 <= sum <= 255 * n,
            m == sum / n,
            rest == sum % n,
    ;
    assert(p == (recip * n) * m + recip * rest) by (nonlinear_arith)
        requires
            p == sum * recip,
            sum == n * m + rest,
    ;
    assert(recip * rest <= recip * n - recip) by (nonlinear_arith)
        requires
            0 <= recip,
            0 <= rest < n,
    ;
    assert(0 <= recip * rest) by (nonlinear_arith)
        requires
            0 <= recip,
            0 <= rest,
    ;
    assert(65536 * m - 257 * 255 <= (recip * n) * m <= 65536 * m + 256 * 255) by (nonlinear_arith)
        requires
            65536 - 257 <= recip * n <= 65536 + 256,
            0 <= m <= 255,
    ;
    if m == 255 {
        assert(rest == 0) by (nonlinear_arith)
            requires
                sum == n * m + rest,
                m == 255,
                sum <= 255 * n,
                0 <= rest,
        ;
        assert(recip * rest == 0) by (nonlinear_arith)
            requires
                rest == 0,
        ;
    }
    assert(p / 65536 <= 255);
}

/// The byte of a window lies between the darkest sample less one and the brightest.
proof fn lemma_window_mean_range(sum: int, r: int, lo: int, hi: int)
    requires
        0 <= r <= 266,
        0 <= lo <= hi <= 255,
        lo * (2 * r + 1) <= sum <= hi * (2 * r + 1),
    ensures
        lo - 1 <= window_mean(sum, r) <= hi,
{
    let n = 2 * r + 1;
    let recip = reciprocal(n);
    let p = sum * recip;
    lemma_reciprocal_error(r);
    assert(p <= hi * (recip * n) && p >= lo * (recip * n)) by (nonlinear_arith)
        requires
            p == sum * recip,
            lo * n <= sum <= hi * n,
            0 <= recip,
    {
        assert(lo * n * recip <= sum * recip <= hi * n * recip);
        assert(hi * n * recip == hi * (recip * n));
        assert(lo * n * recip == lo * (recip * n));
    }
    assert(hi * (recip * n) <= 65536 * hi + 255 * 256) by (nonlinear_arith)
        requires
            0 <= hi <= 255,
            recip * n <= 65536 + 256,
    ;
    assert(lo * (recip * n) >= 65536 * lo - 255 * 257 && lo * (recip * n) >= 0) by (nonlinear_arith)
        requires
            0 <= lo <= 255,
            recip * n >= 65536 - 257,
    ;
}

proof fn lemma_span_sum_range(f: spec_fn(int) -> int, a: int, b: int, lo: int, hi: int)
    requires
        forall|i: int| lo <= #[trigger] f(i) <= hi,
        a <= b,
    ensures
        lo * (b - a) <= span_sum(f, a, b) <= hi * (b - a),
    decreases b - a,
{
    if a < b {
        lemma_span_sum_range(f, a, b - 1, lo, hi);
        assert(lo * (b - a) == lo * (b - 1 - a) + lo) by (nonlinear_arith);
        assert(hi * (b - a) == hi * (b - 1 - a) + hi) by (nonlinear_arith);
    } else {
        assert(lo * (b - a) == 0 && hi * (b - a) == 0) by (nonlinear_arith)
            requires
                a == b,
        ;
    }
}

/// The bytes of channel `c` of the image are within `lo..=hi`.
pub open spec fn channel_in_range(image: Seq<u8>, c: int, lo: int, hi: int) -> bool {
    forall|j: int| 0 <= j < image.len() && j % 3 == c ==> lo <= #[trigger] image[j] <= hi
}

/// Rows of whole pixels begin with a whole pixel.
proof fn lemma_row_channel(y: int, i: int, w: int)
    ensures
        (y * (w * 3) + i) % 3 == i % 3,
{
    assert(y * (w * 3) + i == 3 * (y * w) + i) by (nonlinear_arith);
}

proof fn lemma_pass_range(src: Seq<u8>, w: int, h: int, r: int, c: int, lo: int, hi: int)
    requires
        w > 0,
        h > 0,
        0 <= r <= 266,
        src.len() == w * h * 3,
        0 <= lo <= hi <= 255,
        channel_in_range(src, c, lo, hi),
    ensures
        channel_in_range(pass_h(src, w, h, r), c, lo - 1, hi),
        channel_in_range(pass_v(src, w, h, r), c, lo - 1, hi),
        pass_h(src, w, h, r).len() == w * h * 3,
        pass_v(src, w, h, r).len() == w * h * 3,
{
    let stride = w * 3;
    assert(h * stride == w * h * 3) by (nonlinear_arith)
        requires
            stride == w * 3,
    ;
    assert forall|j: int| 0 <= j < w * h * 3 && j % 3 == c implies lo - 1 <= #[trigger] pass_h(
        src,
        w,
        h,
        r,
    )[j] <= hi by {
        let y = j / stride;
        let x = j % stride / 3;
        assert(0 <= y < h && 0 <= j % stride < stride && j == y * stride + j % stride)
            by (nonlinear_arith)
            requires
                0 <= j < h * stride,
                0 < stride,
                y == j / stride,
        ;
        lemma_row_channel(y, j % stride, w);
        lemma_row_within(y, h, stride);
        let f = row_samples(src, y * stride, c, w);
        assert forall|k: int| lo <= #[trigger] f(k) <= hi by {
            let i = clamp_index(k, w) * 3 + c;
            lemma_row_channel(y, i, w);
            assert(lo <= src[y * stride + i] <= hi);
        }
        lemma_span_sum_range(f, x - r, x + r + 1, lo, hi);
        lemma_window_mean_range(span_sum(f, x - r, x + r + 1), r, lo, hi);
    }
    assert forall|j: int| 0 <= j < w * h * 3 && j % 3 == c implies lo - 1 <= #[trigger] pass_v(
        src,
        w,
        h,
        r,
    )[j] <= hi by {
        let y = j / stride;
        let i = j % stride;
        assert(0 <= i < stride && j == y * stride + i) by (nonlinear_arith)
            requires
                0 < stride,
                i == j % stride,
                y == j / stride,
        ;
        lemma_row_channel(y, i, w);
        let f = column_samples(src, i, stride, h);
        assert forall|k: int| lo <= #[trigger] f(k) <= hi by {
            let row = clamp_index(k, h);
            lemma_row_within(row, h, stride);
            lemma_row_channel(row, i, w);
            assert(lo <= src[row * stride + i] <= hi);
        }
        lemma_span_sum_range(f, y - r, y + r + 1, lo, hi);
        lemma_window_mean_range(span_sum(f, y - r, y + r + 1), r, lo, hi);
    }
}

proof fn lemma_pass_range_floor(src: Seq<u8>, w: int, h: int, r: int, c: int, lo: int, hi: int)
    requires
        w > 0,
        h > 0,
        0 <= r <= 266,
        src.len() == w * h * 3,
        lo <= hi,
        0 <= hi <= 255,
        channel_in_range(src, c, lo, hi),
    ensures
        channel_in_range(pass_h(src, w, h, r), c, lo - 1, hi),
        channel_in_range(pass_v(src, w, h, r), c, lo - 1, hi),
{
    lemma_pass_range(src, w, h, r, c, if lo < 0 { 0 } else { lo }, hi);
}

/// Blurring makes no channel of an image brighter than the channel's brightest byte, and
/// none darker than its darkest byte by more than one level for each of the four passes.
pub proof fn law_blur_stays_in_range(
    image: Seq<u8>,
    w: int,
    h: int,
    r: int,
    c: int,
    lo: int,
    hi: int,
)
    requires
        w > 0,
        h > 0,
        0 <= r <= 266,
        image.len() == w * h * 3,
        lo <= hi,
        0 <= hi <= 255,
        channel_in_range(image, c, lo, hi),
    ensures
        blurred(image, w, h, r).len() == image.len(),
        channel_in_range(blurred(image, w, h, r), c, lo - 4, hi),
{
    let p1 = pass_h(image, w, h, r);
    let p2 = pass_v(p1, w, h, r);
    let p3 = pass_h(p2, w, h, r);
    lemma_pass_range_floor(image, w, h, r, c, lo, hi);
    lemma_pass_range_floor(p1, w, h, r, c, lo - 1, hi);
    lemma_pass_range_floor(p2, w, h, r, c, lo - 2, hi);
    lemma_pass_range_floor(p3, w, h, r, c, lo - 3, hi);
}

/// What a pass makes of a channel that is `v` everywhere.
pub open spec fn even_pass(v: u8, r: int) -> u8 {
    window_mean(v * (2 * r + 1), r)
}

/// What the blur makes of a channel that is `v` everywhere.
pub open spec fn even_blurred(v: u8, r: int) -> u8 {
    even_pass(even_pass(even_pass(even_pass(v, r), r), r), r)
}

proof fn lemma_even_pass(src: Seq<u8>, w: int, h: int, r: int, c: int, v: u8)
    requires
        w > 0,
        h > 0,
        0 <= r,
        src.len() == w * h * 3,
        channel_in_range(src, c, v as int, v as int),
    ensures
        channel_in_range(pass_h(src, w, h, r), c, even_pass(v, r) as int, even_pass(v, r) as int),
        channel_in_range(pass_v(src, w, h, r), c, even_pass(v, r) as int, even_pass(v, r) as int),
        pass_h(src, w, h, r).len() == w * h * 3,
        pass_v(src, w, h, r).len() == w * h * 3,
{
    let stride = w * 3;
    let iv = v as int;
    assert(h * stride == w * h * 3 && w * h * 3 >= 0) by (nonlinear_arith)
        requires
            stride == w * 3,
            w > 0,
            h > 0,
    ;
    assert forall|j: int| 0 <= j < w * h * 3 && j % 3 == c implies #[trigger] pass_h(
        src,
        w,
        h,
        r,
    )[j] == even_pass(v, r) by {
        let y = j / stride;
        let x = j % stride / 3;
        assert(0 <= y < h && 0 <= j % stride < stride && j == y * stride + j % stride)
            by (nonlinear_arith)
            requires
                0 <= j < h * stride,
                0 < stride,
                y == j / stride,
        ;
        lemma_row_channel(y, j % stride, w);
        lemma_row_within(y, h, stride);
        let f = row_samples(src, y * stride, c, w);
        assert forall|k: int| iv <= #[trigger] f(k) <= iv by {
            let i = clamp_index(k, w) * 3 + c;
            lemma_row_channel(y, i, w);
            assert(iv <= src[y * stride + i] <= iv);
        }
        lemma_span_sum_range(f, x - r, x + r + 1, iv, iv);
    }
    assert forall|j: int| 0 <= j < w * h * 3 && j % 3 == c implies #[trigger] pass_v(
        src,
        w,
        h,
        r,
    )[j] == even_pass(v, r) by {
        let y = j / stride;
        let i = j % stride;
        assert(0 <= i < stride && j == y * stride + i) by (nonlinear_arith)
            requires
                0 < stride,
                i == j % stride,
                y == j / stride,
        ;
        lemma_row_channel(y, i, w);
        let f = column_samples(src, i, stride, h);
        assert forall|k: int| iv <= #[trigger] f(k) <= iv by {
            let row = clamp_index(k, h);
            lemma_row_within(row, h, stride);
            lemma_row_channel(row, i, w);
            assert(iv <= src[row * stride + i] <= iv);
        }
        lemma_span_sum_range(f, y - r, y + r + 1, iv, iv);
    }
}

/// A channel that is the same everywhere is the same everywhere after the blur.
pub proof fn law_even_image_stays_even(image: Seq<u8>, w: int, h: int, r: int, c: int, v: u8)
    requires
        w >= 2,
        h >= 2,
        0 <= r,
        image.len() == w * h * 3,
        channel_in_range(image, c, v as int, v as int),
    ensures
        channel_in_range(
            blurred(image, w, h, r),
            c,
            even_blurred(v, r) as int,
            even_blurred(v, r) as int,
        ),
{
    let p1 = pass_h(image, w, h, r);
    let p2 = pass_v(p1, w, h, r);
    let p3 = pass_h(p2, w, h, r);
    let v1 = even_pass(v, r);
    let v2 = even_pass(v1, r);
    let v3 = even_pass(v2, r);
    lemma_even_pass(image, w, h, r, c, v);
    lemma_even_pass(p1, w, h, r, c, v1);
    lemma_even_pass(p2, w, h, r, c, v2);
    lemma_even_pass(p3, w, h, r, c, v3);
}

} // verus!
