//! Painting a small picture into a window: letterboxed, enlarged by interpolation up to
//! a fixed width and by repetition beyond it.
use vstd::prelude::*;

use crate::reduce::{at_least, clamped, Image, Tiny};
use crate::scale::{bilinear_u32, enlarged, map_within, Tap};

verus! {

/// The colour of the margins, and of a window with no picture.
pub const BACKGROUND: u32 = 0x0014_1418;

/// The widest picture that is interpolated; a wider one repeats its pixels.
pub const MID_CAP: usize = 1024;

/// The place of the picture in the window.
pub struct Placement {
    pub ox: usize,
    pub oy: usize,
    pub dw: usize,
    pub dh: usize,
}

/// How far along an axis of `b` pixels the picture reaches when it would fit in `fit`.
pub open spec fn extent(fit: int, b: int) -> int {
    clamped(fit, 1, b)
}

/// Where the picture begins along an axis of `b` pixels: the margins are even.
pub open spec fn margin(fit: int, b: int) -> int {
    (b - extent(fit, b)) / 2
}

/// The size, for a picture shown at `dw` by `dh`, up to which it is interpolated.
pub open spec fn interpolated_size(dw: int, dh: int) -> (int, int) {
    if dw > MID_CAP {
        (MID_CAP as int, at_least((dh * MID_CAP + dw / 2) / dw, 1))
    } else {
        (dw, dh)
    }
}

/// The measures by which a picture is fitted to a window: the size that keeps its
/// proportions, and where the interpolated columns and rows read it.
pub struct Scaling {
    pub fit_w: usize,
    pub fit_h: usize,
    pub xmap: Vec<Tap>,
    pub ymap: Vec<Tap>,
}

impl Scaling {
    /// The measures are for this picture in a window of `bw` by `bh`.
    pub open spec fn suits(self, tiny: Tiny, bw: int, bh: int) -> bool {
        let (mw, mh) = interpolated_size(
            extent(self.fit_w as int, bw),
            extent(self.fit_h as int, bh),
        );
        &&& self.xmap@.len() == mw
        &&& self.ymap@.len() == mh
        &&& map_within(self.xmap@, tiny.w as int)
        &&& map_within(self.ymap@, tiny.h as int)
        &&& mw * tiny.h * 3 <= usize::MAX
    }
}

/// The pixel of the window at column `x` and row `y`.
pub open spec fn window_pixel(
    image: Image,
    scaling: Scaling,
    bw: int,
    bh: int,
    x: int,
    y: int,
) -> u32 {
    let (fw, fh) = (scaling.fit_w as int, scaling.fit_h as int);
    let (dw, dh) = (extent(fw, bw), extent(fh, bh));
    let (ox, oy) = (margin(fw, bw), margin(fh, bh));
    let (mw, mh) = interpolated_size(dw, dh);
    if ox <= x < ox + dw && oy <= y < oy + dh {
        enlarged(image, scaling.xmap@, scaling.ymap@)[(y - oy) * mh / dh * mw + (x - ox) * mw
            / dw]
    } else {
        BACKGROUND
    }
}

/// The window's pixels, row by row.
pub open spec fn window_image(image: Image, scaling: Scaling, bw: int, bh: int) -> Seq<u32> {
    Seq::new((bw * bh) as nat, |j: int| window_pixel(image, scaling, bw, bh, j % bw, j / bw))
}

/// The place of a picture that would fit in `fit_w` by `fit_h`, in a window of `bw` by `bh`.
pub fn letterbox(bw: usize, bh: usize, fit_w: usize, fit_h: usize) -> (place: Placement)
    requires
        bw > 0,
        bh > 0,
    ensures
        place.dw == extent(fit_w as int, bw as int),
        place.dh == extent(fit_h as int, bh as int),
        place.ox == margin(fit_w as int, bw as int),
        place.oy == margin(fit_h as int, bh as int),
{
    let dw: usize = if fit_w < 1 {
        1
    } else if fit_w > bw {
        bw
    } else {
        fit_w
    };
    let dh: usize = if fit_h < 1 {
        1
    } else if fit_h > bh {
        bh
    } else {
        fit_h
    };
    Placement { ox: (bw - dw) / 2, oy: (bh - dh) / 2, dw, dh }
}

proof fn lemma_interpolated_size(dw: int, dh: int)
    requires
        dw >= 1,
        dh >= 1,
    ensures
        1 <= interpolated_size(dw, dh).0 <= dw,
        1 <= interpolated_size(dw, dh).1 <= dh,
        interpolated_size(dw, dh).0 * interpolated_size(dw, dh).1 <= dw * dh,
{
    let (mw, mh) = interpolated_size(dw, dh);
    if dw > MID_CAP {
        let rows = (dh * MID_CAP + dw / 2) / dw;
        assert(rows <= dh) by (nonlinear_arith)
            requires
                dw > 1024,
                dh >= 1,
                rows == (dh * 1024 + dw / 2) / dw,
        {
            assert(dh * 1024 <= dh * dw);
            assert(dh * 1024 + dw / 2 < (dh + 1) * dw);
        }
    }
    assert(mw * mh <= dw * dh) by (nonlinear_arith)
        requires
            1 <= mw <= dw,
            1 <= mh <= dh,
    ;
}

/// The size up to which a picture shown at `dw` by `dh` is interpolated.
pub fn mid_size(dw: usize, dh: usize) -> (size: (usize, usize))
    requires
        dw > 0,
        dh > 0,
    ensures
        (size.0 as int, size.1 as int) == interpolated_size(dw as int, dh as int),
{
    proof {
        lemma_interpolated_size(dw as int, dh as int);
    }
    if dw > MID_CAP {
        let rows: u128 = (dh as u128 * 1024 + dw as u128 / 2) / dw as u128;
        (MID_CAP, if rows < 1 { 1 } else { rows as usize })
    } else {
        (dw, dh)
    }
}

/// Position `i` of `n`, carried over to `m` positions.
fn carried(i: usize, n: usize, m: usize) -> (c: usize)
    requires
        i < n,
        0 < m,
    ensures
        c == i * m / n as int,
        c < m,
{
    proof {
        lemma_carried(i as int, n as int, m as int);
        assert(0 <= i * m <= u64::MAX * u64::MAX) by (nonlinear_arith)
            requires
                i <= u64::MAX,
                m <= u64::MAX,
        ;
    }
    (i as u128 * m as u128 / n as u128) as usize
}

proof fn lemma_carried(i: int, n: int, m: int)
    by (nonlinear_arith)
    requires
        0 <= i < n,
        0 < m,
    ensures
        0 <= i * m / n < m,
{
    assert(i * m < n * m);
    assert(0 <= i * m);
}

proof fn lemma_cell(y: int, rows: int, x: int, cols: int)
    by (nonlinear_arith)
    requires
        0 <= y < rows,
        0 <= x < cols,
    ensures
        0 <= y * cols,
        y * cols + x < cols * rows,
        y * cols + cols <= cols * rows,
        (y * cols + x) / cols == y,
        (y * cols + x) % cols == x,
        (y + 1) * cols == y * cols + cols,
{
    assert(y * cols <= (rows - 1) * cols);
}

/// Sets every pixel of the window to the background.
fn clear(out: &mut [u32])
    ensures
        final(out)@ == Seq::new(old(out)@.len(), |j: int| BACKGROUND),
{
    let n: usize = out.len();
    let mut i: usize = 0;
    while i < n
        invariant
            i <= n,
            n == out.len(),
            forall|j: int| 0 <= j < i ==> out@[j] == BACKGROUND,
        decreases n - i,
    {
        out[i] = BACKGROUND;
        i = i + 1;
    }
    assert(out@ =~= Seq::new(old(out)@.len(), |j: int| BACKGROUND));
}

/// Paints the picture into the window's pixels, `bw` by `bh` of them at the front of
/// `out`. A picture without area leaves nothing but background.
pub fn draw_tiny(tiny: &Tiny, scaling: &Scaling, out: &mut [u32], bw: usize, bh: usize)
    requires
        tiny.w >= 1 && tiny.h >= 1 ==> {
            &&& bw >= 1
            &&& bh >= 1
            &&& bw * bh <= old(out).len()
            &&& tiny.wf()
            &&& scaling.suits(*tiny, bw as int, bh as int)
        },
    ensures
        tiny.w < 1 || tiny.h < 1 ==> final(out)@ == Seq::new(
            old(out)@.len(),
            |j: int| BACKGROUND,
        ),
        tiny.w >= 1 && tiny.h >= 1 ==> final(out)@ == window_image(
            tiny@,
            *scaling,
            bw as int,
            bh as int,
        ) + old(out)@.skip(bw * bh),
{
    if tiny.w < 1 || tiny.h < 1 {
        clear(out);
        return ;
    }
    let place = letterbox(bw, bh, scaling.fit_w, scaling.fit_h);
    let (ox, oy, dw, dh): (usize, usize, usize, usize) = (place.ox, place.oy, place.dw, place.dh);
    let (mw, mh): (usize, usize) = mid_size(dw, dh);
    proof {
        lemma_interpolated_size(dw as int, dh as int);
        assert(dw * dh <= bw * bh) by (nonlinear_arith)
            requires
                dw <= bw,
                dh <= bh,
        ;
    }
    let mid: Vec<u32> = bilinear_u32(tiny, scaling.xmap.as_slice(), scaling.ymap.as_slice());
    let ghost image = tiny@;
    let ghost out0 = out@;
    let ghost (ibw, ibh) = (bw as int, bh as int);

    let mut columns: Vec<usize> = Vec::new();
    let mut i: usize = 0;
    while i < dw
        invariant
            i <= dw,
            0 < mw,
            columns.len() == i,
            forall|k: int| 0 <= k < i ==> columns@[k] == k * mw / dw as int && columns@[k] < mw,
        decreases dw - i,
    {
        columns.push(carried(i, dw, mw));
        i = i + 1;
    }
    let mut row: Vec<u32> = vec![0; dw];
    let mut row_of: usize = usize::MAX;
    let mut y: usize = 0;
    let mut base: usize = 0;
    while y < bh
        invariant
            y <= bh,
            1 <= bw,
            base == y * bw,
            ibw == bw,
            ibh == bh,
            bw * bh <= out.len(),
            out@.len() == out0.len(),
            dw == extent(scaling.fit_w as int, ibw),
            dh == extent(scaling.fit_h as int, ibh),
            ox == margin(scaling.fit_w as int, ibw),
            oy == margin(scaling.fit_h as int, ibh),
            1 <= dw <= bw,
            1 <= dh <= bh,
            (mw as int, mh as int) == interpolated_size(dw as int, dh as int),
            1 <= mw,
            1 <= mh <= dh,
            mid@ == enlarged(image, scaling.xmap@, scaling.ymap@),
            mid.len() == mw * mh,
            columns.len() == dw,
            forall|k: int| 0 <= k < dw ==> columns@[k] == k * mw / dw as int && columns@[k] < mw,
            row.len() == dw,
            row_of != usize::MAX ==> row_of < mh && forall|k: int|
                0 <= k < dw ==> row@[k] == mid@[row_of * mw + k * mw / dw as int],
            forall|j: int|
                0 <= j < base ==> out@[j] == window_pixel(
                    image,
                    *scaling,
                    ibw,
                    ibh,
                    j % ibw,
                    j / ibw,
                ),
            forall|j: int| base <= j < out0.len() ==> out@[j] == out0[j],
        decreases bh - y,
    {
        proof {
            lemma_cell(y as int, ibh, 0, ibw);
        }
        let shown: bool = oy <= y && y - oy < dh;
        if shown {
            let sy: usize = carried(y - oy, dh, mh);
            if sy != row_of {
                let mut k: usize = 0;
                proof {
                    lemma_cell(sy as int, mh as int, 0, mw as int);
                }
                while k < dw
                    invariant
                        k <= dw,
                        sy < mh,
                        mid.len() == mw * mh,
                        columns.len() == dw,
                        forall|n: int|
                            0 <= n < dw ==> columns@[n] == n * mw / dw as int && columns@[n] < mw,
                        0 <= sy * mw,
                        sy * mw + mw <= mw * mh,
                        row.len() == dw,
                        forall|n: int|
                            0 <= n < k ==> row@[n] == mid@[sy * mw + n * mw / dw as int],
                    decreases dw - k,
                {
                    row[k] = mid[sy * mw + columns[k]];
                    k = k + 1;
                }
                row_of = sy;
            }
        }
        let mut x: usize = 0;
        while x < bw
            invariant
                x <= bw,
                y < bh,
                base == y * bw,
                base + bw <= bw * bh,
                ibw == bw,
                ibh == bh,
                bw * bh <= out.len(),
                out@.len() == out0.len(),
                dw == extent(scaling.fit_w as int, ibw),
                dh == extent(scaling.fit_h as int, ibh),
                ox == margin(scaling.fit_w as int, ibw),
                oy == margin(scaling.fit_h as int, ibh),
                1 <= dw <= bw,
                1 <= dh <= bh,
                (mw as int, mh as int) == interpolated_size(dw as int, dh as int),
                shown == (oy <= y < oy + dh),
                mid@ == enlarged(image, scaling.xmap@, scaling.ymap@),
                row.len() == dw,
                shown ==> forall|k: int|
                    0 <= k < dw ==> row@[k] == mid@[(y - oy) * mh / dh as int * mw + k * mw
                        / dw as int],
                forall|j: int|
                    0 <= j < base + x ==> out@[j] == window_pixel(
                        image,
                        *scaling,
                        ibw,
                        ibh,
                        j % ibw,
                        j / ibw,
                    ),
                forall|j: int| base + x <= j < out0.len() ==> out@[j] == out0[j],
            decreases bw - x,
        {
            proof {
                lemma_cell(y as int, ibh, x as int, ibw);
            }
            if shown && ox <= x && x - ox < dw {
                out[base + x] = row[x - ox];
            } else {
                out[base + x] = BACKGROUND;
            }
            x = x + 1;
        }
        base = base + bw;
        y = y + 1;
    }
    proof {
        assert(bh * bw == bw * bh) by (nonlinear_arith);
        assert(out@ =~= window_image(image, *scaling, ibw, ibh) + out0.skip(bw * bh));
    }
}

/// The picture can be painted into a window of `bw` by `bh` whose buffer holds `len` pixels.
pub open spec fn is_drawable(tiny: Tiny, scaling: Scaling, bw: int, bh: int, len: int) -> bool {
    tiny.w >= 1 && tiny.h >= 1 ==> {
        &&& bw >= 1
        &&& bh >= 1
        &&& bw * bh <= len
        &&& tiny.wf()
        &&& scaling.suits(tiny, bw, bh)
    }
}

/// Whether `a * b * c` is at most `most`.
fn product_within(a: usize, b: usize, c: usize, most: usize) -> (within: bool)
    requires
        c > 0,
    ensures
        within == (a * b * c <= most),
{
    proof {
        assert(0 <= a * b <= u64::MAX * u64::MAX) by (nonlinear_arith)
            requires
                a <= u64::MAX,
                b <= u64::MAX,
        ;
        let (ab, q) = (a * b, most as int / c as int);
        assert(ab <= q <==> ab * c <= most) by (nonlinear_arith)
            requires
                c > 0,
                q == most as int / c as int,
        {
            assert(q * c <= most < (q + 1) * c);
            if ab <= q {
                assert(ab * c <= q * c);
            } else {
                assert(ab * c >= (q + 1) * c);
            }
        }
    }
    let ab: u128 = a as u128 * b as u128;
    ab <= (most / c) as u128
}

/// Whether every tap of `map` reads positions of `n`.
fn check_map(map: &Vec<Tap>, n: usize) -> (b: bool)
    ensures
        b == map_within(map@, n as int),
{
    let len: usize = map.len();
    let mut i: usize = 0;
    while i < len
        invariant
            i <= len,
            len == map.len(),
            forall|k: int| 0 <= k < i ==> (#[trigger] map@[k]).reads_within(n as int),
        decreases len - i,
    {
        if map[i].i0 >= n || map[i].i1 >= n || map[i].f > 256 {
            assert(!map@[i as int].reads_within(n as int));
            return false;
        }
        i = i + 1;
    }
    true
}

/// Whether the picture can be painted into the window.
pub fn can_draw(tiny: &Tiny, scaling: &Scaling, bw: usize, bh: usize, len: usize) -> (b: bool)
    ensures
        b == is_drawable(*tiny, *scaling, bw as int, bh as int, len as int),
{
    if tiny.w < 1 || tiny.h < 1 {
        return true;
    }
    if bw < 1 || bh < 1 || !product_within(bw, bh, 1, len) {
        return false;
    }
    if !product_within(tiny.w, tiny.h, 3, tiny.rgb.len()) {
        return false;
    }
    let place = letterbox(bw, bh, scaling.fit_w, scaling.fit_h);
    let (mw, mh): (usize, usize) = mid_size(place.dw, place.dh);
    scaling.xmap.len() == mw && scaling.ymap.len() == mh && check_map(&scaling.xmap, tiny.w)
        && check_map(&scaling.ymap, tiny.h) && product_within(mw, tiny.h, 3, usize::MAX)
}

/// Paints the window: the picture, or background where there is none yet. Measures that
/// are not for this picture and window paint nothing, which the result tells.
pub fn draw(
    frame: Option<&Tiny>,
    scaling: &Scaling,
    out: &mut [u32],
    bw: usize,
    bh: usize,
) -> (painted: bool)
    ensures
        painted == match frame {
            Some(tiny) => is_drawable(
                *tiny,
                *scaling,
                bw as int,
                bh as int,
                old(out)@.len() as int,
            ),
            None => true,
        },
        !painted ==> final(out)@ == old(out)@,
        painted ==> match frame {
            Some(tiny) => final(out)@ == if tiny.w < 1 || tiny.h < 1 {
                Seq::new(old(out)@.len(), |j: int| BACKGROUND)
            } else {
                window_image(tiny@, *scaling, bw as int, bh as int) + old(out)@.skip(bw * bh)
            },
            None => final(out)@ == Seq::new(old(out)@.len(), |j: int| BACKGROUND),
        },
{
    match frame {
        Some(tiny) => {
            if !can_draw(tiny, scaling, bw, bh, out.len()) {
                return false;
            }
            draw_tiny(tiny, scaling, out, bw, bh);
        },
        None => {
            clear(out);
        },
    }
    true
}

/// The picture lies within the window, in its middle: the margins on both sides differ by
/// one pixel at the most.
pub proof fn law_picture_is_centred(fit: int, b: int)
    requires
        b >= 1,
    ensures
        1 <= extent(fit, b) <= b,
        0 <= margin(fit, b),
        margin(fit, b) + extent(fit, b) <= b,
        0 <= b - extent(fit, b) - 2 * margin(fit, b) <= 1,
{
}

/// However large the window, no more than a fixed number of columns is interpolated, nor
/// more pixels than are shown.
pub proof fn law_interpolation_is_bounded(dw: int, dh: int)
    requires
        dw >= 1,
        dh >= 1,
    ensures
        ({
            let (mw, mh) = interpolated_size(dw, dh);
            &&& 1 <= mw <= MID_CAP
            &&& 1 <= mh <= dh
            &&& mw * mh <= dw * dh
        }),
{
    lemma_interpolated_size(dw, dh);
}

/// A picture shown no wider than the cap is copied as it was interpolated, pixel for pixel.
pub proof fn law_narrow_picture_is_copied(
    image: Image,
    scaling: Scaling,
    bw: int,
    bh: int,
    x: int,
    y: int,
)
    requires
        bw >= 1,
        bh >= 1,
        extent(scaling.fit_w as int, bw) <= MID_CAP,
        0 <= x < extent(scaling.fit_w as int, bw),
        0 <= y < extent(scaling.fit_h as int, bh),
    ensures
        window_pixel(
            image,
            scaling,
            bw,
            bh,
            margin(scaling.fit_w as int, bw) + x,
            margin(scaling.fit_h as int, bh) + y,
        ) == enlarged(image, scaling.xmap@, scaling.ymap@)[y * extent(scaling.fit_w as int, bw)
            + x],
{
    let (dw, dh) = (extent(scaling.fit_w as int, bw), extent(scaling.fit_h as int, bh));
    assert(x * dw / dw == x && y * dh / dh == y) by (nonlinear_arith)
        requires
            dw >= 1,
            dh >= 1,
    ;
}

} // verus!
