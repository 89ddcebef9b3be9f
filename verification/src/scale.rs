//! Enlarging a small picture by linear interpolation.
use vstd::prelude::*;

use crate::reduce::{Image, Tiny};

verus! {

/// Where a column or row of the enlarged picture reads the small one: two neighbours,
/// and the weight of the second in 256ths.
pub struct Tap {
    pub i0: usize,
    pub i1: usize,
    pub f: u32,
}

impl Tap {
    /// The tap reads positions of `n`, with a weight of at most one.
    pub open spec fn reads_within(self, n: int) -> bool {
        &&& self.i0 < n
        &&& self.i1 < n
        &&& self.f <= 256
    }

    /// Position `k` is all that the tap reads with any weight.
    pub open spec fn reads_only(self, k: int) -> bool {
        &&& self.f == 256 || self.i0 == k
        &&& self.f == 0 || self.i1 == k
    }
}

/// The tap at position `floor` of `src`, with `frac` 256ths of its neighbour: positions
/// past the last read the last, and the weight is one at most.
pub open spec fn tap_at(floor: usize, frac: u32, src: usize) -> Tap {
    let i0 = if floor < src {
        floor as int
    } else {
        src - 1
    };
    let i1 = if i0 + 1 < src {
        i0 + 1
    } else {
        src - 1
    };
    let f = if frac < 256 {
        frac
    } else {
        256
    };
    Tap { i0: i0 as usize, i1: i1 as usize, f }
}

/// Every tap of `map` reads positions of `n`.
pub open spec fn map_within(map: Seq<Tap>, n: int) -> bool {
    forall|i: int| 0 <= i < map.len() ==> (#[trigger] map[i]).reads_within(n)
}

/// `a` and `b` mixed, with `f` 256ths of `b`, rounded down.
pub open spec fn mixed(a: int, b: int, f: int) -> int {
    (a * (256 - f) + b * f) / 256
}

/// Channel `c` of row `row` of the picture, mixed across by `tap`.
pub open spec fn mixed_across(image: Image, row: int, tap: Tap, c: int) -> int {
    mixed(
        image.rgb[(row * image.w + tap.i0) * 3 + c] as int,
        image.rgb[(row * image.w + tap.i1) * 3 + c] as int,
        tap.f as int,
    )
}

/// Channel `c` of the picture, mixed across by `tx` and down by `ty`.
pub open spec fn mixed_at(image: Image, tx: Tap, ty: Tap, c: int) -> int {
    mixed(
        mixed_across(image, ty.i0 as int, tx, c),
        mixed_across(image, ty.i1 as int, tx, c),
        ty.f as int,
    )
}

/// A pixel as one number, red highest.
pub open spec fn packed(red: int, green: int, blue: int) -> u32 {
    (red * 65536 + green * 256 + blue) as u32
}

/// The enlarged pixel that `tx` and `ty` read.
pub open spec fn mixed_pixel(image: Image, tx: Tap, ty: Tap) -> u32 {
    packed(mixed_at(image, tx, ty, 0), mixed_at(image, tx, ty, 1), mixed_at(image, tx, ty, 2))
}

/// The picture read by `xmap` and `ymap`: one column for each tap of the first, and one row
/// for each of the second.
pub open spec fn interpolated(image: Image, xmap: Seq<Tap>, ymap: Seq<Tap>) -> Seq<u32> {
    Seq::new(
        xmap.len() * ymap.len(),
        |j: int| mixed_pixel(image, xmap[j % (xmap.len() as int)], ymap[j / (xmap.len() as int)]),
    )
}

/// The taps by which an axis of `n` positions is read: those of `map`, but where the axis
/// keeps its size there is nothing to interpolate, and each place is read as it is.
pub open spec fn settled(map: Seq<Tap>, n: int) -> Seq<Tap> {
    if map.len() == n {
        Seq::new(map.len(), |k: int| tap_at(k as usize, 0, n as usize))
    } else {
        map
    }
}

/// The picture enlarged to one column for each tap of `xmap` and one row for each of `ymap`.
pub open spec fn enlarged(image: Image, xmap: Seq<Tap>, ymap: Seq<Tap>) -> Seq<u32> {
    interpolated(image, settled(xmap, image.w), settled(ymap, image.h))
}

/// The position `floor`, or the last of `src` where it lies past it.
pub fn nearest_index(floor: usize, src: usize) -> (i: usize)
    requires
        src > 0,
    ensures
        i == if floor < src {
            floor as int
        } else {
            src - 1
        },
{
    if floor < src { floor } else { src - 1 }
}

impl Tap {
    /// The tap at position `floor` of `src`, with `frac` 256ths of its neighbour.
    pub fn new(floor: usize, frac: u32, src: usize) -> (tap: Tap)
        requires
            src > 0,
        ensures
            tap == tap_at(floor, frac, src),
            tap.reads_within(src as int),
    {
        let i0: usize = nearest_index(floor, src);
        let i1: usize = if i0 < src - 1 { i0 + 1 } else { src - 1 };
        let f: u32 = if frac < 256 { frac } else { 256 };
        Tap { i0, i1, f }
    }
}

proof fn lemma_mixed_bounds(a: int, b: int, f: int, lo: int, hi: int)
    requires
        lo <= a <= hi,
        lo <= b <= hi,
        0 <= f <= 256,
    ensures
        lo <= mixed(a, b, f) <= hi,
        lo * 256 <= a * (256 - f) + b * f <= hi * 256,
{
    assert(lo * 256 <= a * (256 - f) + b * f <= hi * 256) by (nonlinear_arith)
        requires
            lo <= a <= hi,
            lo <= b <= hi,
            0 <= f <= 256,
    {
        assert(a * (256 - f) >= lo * (256 - f));
        assert(b * f >= lo * f);
        assert(a * (256 - f) <= hi * (256 - f));
        assert(b * f <= hi * f);
        assert(lo * (256 - f) + lo * f == lo * 256);
        assert(hi * (256 - f) + hi * f == hi * 256);
    }
}

/// `a` and `b` mixed, with `f` 256ths of `b`.
fn mix(a: u8, b: u8, f: u32) -> (v: u8)
    requires
        f <= 256,
    ensures
        v == mixed(a as int, b as int, f as int),
{
    proof {
        lemma_mixed_bounds(a as int, b as int, f as int, 0, 255);
        assert(0 <= a * (256 - f) && 0 <= b * f) by (nonlinear_arith)
            requires
                f <= 256,
        ;
    }
    let p: u32 = a as u32 * (256 - f) + b as u32 * f;
    assert(p >> 8 == p / 256) by (bit_vector);
    (p >> 8) as u8
}

proof fn lemma_place(row: int, rows: int, col: int, cols: int)
    by (nonlinear_arith)
    requires
        0 <= row < rows,
        0 <= col < cols,
    ensures
        0 <= row * cols,
        0 <= row * cols + col < rows * cols,
        (row * cols + col) / cols == row,
        (row * cols + col) % cols == col,
        (row * cols + col) * 3 + 3 <= cols * rows * 3,
{
    assert(row * cols <= (rows - 1) * cols);
    assert(cols * rows == rows * cols);
}

/// Byte `j` of the picture mixed across: the rows one after the other, each with one
/// pixel for each tap of `xmap`.
spec fn across_byte(image: Image, xmap: Seq<Tap>, j: int) -> int {
    mixed_across(image, j / 3 / (xmap.len() as int), xmap[j / 3 % (xmap.len() as int)], j % 3)
}

/// Mixes every row of the picture across.
fn mix_rows(tiny: &Tiny, xmap: &[Tap]) -> (tmp: Vec<u8>)
    requires
        tiny.wf(),
        map_within(xmap@, tiny.w as int),
        xmap.len() * tiny.h * 3 <= usize::MAX,
    ensures
        tmp.len() == xmap.len() * tiny.h * 3,
        forall|j: int|
            0 <= j < tmp.len() ==> #[trigger] tmp@[j] == across_byte(tiny@, xmap@, j),
{
    let dw: usize = xmap.len();
    let h: usize = tiny.h;
    let w: usize = tiny.w;
    let mut tmp: Vec<u8> = Vec::new();
    let mut y: usize = 0;
    assert(0 * dw == 0) by (nonlinear_arith);
    while y < h
        invariant
            y <= h,
            h == tiny.h,
            w == tiny.w,
            dw == xmap.len(),
            tiny.wf(),
            map_within(xmap@, w as int),
            tmp.len() == (y * dw) * 3,
            forall|j: int|
                0 <= j < tmp.len() ==> #[trigger] tmp@[j] == across_byte(tiny@, xmap@, j),
        decreases h - y,
    {
        let mut x: usize = 0;
        while x < dw
            invariant
                x <= dw,
                y < h,
                h == tiny.h,
                w == tiny.w,
                dw == xmap.len(),
                tiny.wf(),
                map_within(xmap@, w as int),
                tmp.len() == (y * dw + x) * 3,
                forall|j: int|
                    0 <= j < tmp.len() ==> #[trigger] tmp@[j] == across_byte(tiny@, xmap@, j),
            decreases dw - x,
        {
            let i0: usize = xmap[x].i0;
            let i1: usize = xmap[x].i1;
            let f: u32 = xmap[x].f;
            proof {
                assert(xmap@[x as int].reads_within(w as int));
                assert(tiny.rgb@.len() == tiny.rgb.len());
                lemma_place(y as int, h as int, i0 as int, w as int);
                lemma_place(y as int, h as int, i1 as int, w as int);
                lemma_place(y as int, h as int, x as int, dw as int);
            }
            let p0: usize = (y * w + i0) * 3;
            let p1: usize = (y * w + i1) * 3;
            tmp.push(mix(tiny.rgb[p0], tiny.rgb[p1], f));
            tmp.push(mix(tiny.rgb[p0 + 1], tiny.rgb[p1 + 1], f));
            tmp.push(mix(tiny.rgb[p0 + 2], tiny.rgb[p1 + 2], f));
            x = x + 1;
        }
        assert((y + 1) * dw == y * dw + dw) by (nonlinear_arith);
        y = y + 1;
    }
    assert((h * dw) * 3 == dw * h * 3) by (nonlinear_arith);
    tmp
}

/// Reads the picture by `xmap` and `ymap`, as packed pixels with red highest.
fn interpolate(tiny: &Tiny, xmap: &[Tap], ymap: &[Tap]) -> (mid: Vec<u32>)
    requires
        tiny.wf(),
        map_within(xmap@, tiny.w as int),
        map_within(ymap@, tiny.h as int),
        xmap.len() * tiny.h * 3 <= usize::MAX,
        xmap.len() * ymap.len() <= usize::MAX,
    ensures
        mid@ == interpolated(tiny@, xmap@, ymap@),
{
    let tmp: Vec<u8> = mix_rows(tiny, xmap);
    let dw: usize = xmap.len();
    let dh: usize = ymap.len();
    let mut mid: Vec<u32> = Vec::new();
    let mut y: usize = 0;
    assert(0 * dw == 0) by (nonlinear_arith);
    while y < dh
        invariant
            y <= dh,
            dw == xmap.len(),
            dh == ymap.len(),
            map_within(xmap@, tiny.w as int),
            map_within(ymap@, tiny.h as int),
            tmp.len() == dw * tiny.h * 3,
            forall|j: int|
                0 <= j < tmp.len() ==> #[trigger] tmp@[j] == across_byte(tiny@, xmap@, j),
            mid.len() == y * dw,
            forall|j: int|
                0 <= j < mid.len() ==> #[trigger] mid@[j] == mixed_pixel(
                    tiny@,
                    xmap@[j % (dw as int)],
                    ymap@[j / (dw as int)],
                ),
        decreases dh - y,
    {
        let i0: usize = ymap[y].i0;
        let i1: usize = ymap[y].i1;
        let f: u32 = ymap[y].f;
        let mut x: usize = 0;
        while x < dw
            invariant
                x <= dw,
                y < dh,
                dw == xmap.len(),
                dh == ymap.len(),
                i0 == ymap@[y as int].i0,
                i1 == ymap@[y as int].i1,
                f == ymap@[y as int].f,
                map_within(xmap@, tiny.w as int),
                map_within(ymap@, tiny.h as int),
                tmp.len() == dw * tiny.h * 3,
                forall|j: int|
                    0 <= j < tmp.len() ==> #[trigger] tmp@[j] == across_byte(tiny@, xmap@, j),
                mid.len() == y * dw + x,
                forall|j: int|
                    0 <= j < mid.len() ==> #[trigger] mid@[j] == mixed_pixel(
                        tiny@,
                        xmap@[j % (dw as int)],
                        ymap@[j / (dw as int)],
                    ),
            decreases dw - x,
        {
            proof {
                assert(ymap@[y as int].reads_within(tiny.h as int));
                lemma_place(i0 as int, tiny.h as int, x as int, dw as int);
                lemma_place(i1 as int, tiny.h as int, x as int, dw as int);
                lemma_place(y as int, dh as int, x as int, dw as int);
            }
            let p0: usize = (i0 * dw + x) * 3;
            let p1: usize = (i1 * dw + x) * 3;
            let rr: u8 = mix(tmp[p0], tmp[p1], f);
            let gg: u8 = mix(tmp[p0 + 1], tmp[p1 + 1], f);
            let bb: u8 = mix(tmp[p0 + 2], tmp[p1 + 2], f);
            let pixel: u32 = ((rr as u32) << 16) | ((gg as u32) << 8) | (bb as u32);
            assert(((rr as u32) << 16) | ((gg as u32) << 8) | (bb as u32) == rr as u32 * 65536
                + gg as u32 * 256 + bb as u32) by (bit_vector);
            assert(pixel == mixed_pixel(tiny@, xmap@[x as int], ymap@[y as int]));
            mid.push(pixel);
            x = x + 1;
        }
        assert((y + 1) * dw == y * dw + dw) by (nonlinear_arith);
        y = y + 1;
    }
    assert(dh * dw == dw * dh) by (nonlinear_arith);
    assert(mid@ =~= interpolated(tiny@, xmap@, ymap@));
    mid
}

/// The taps by which an axis of `n` positions is read.
fn settle(map: &[Tap], n: usize) -> (taps: Vec<Tap>)
    requires
        map_within(map@, n as int),
    ensures
        taps@ == settled(map@, n as int),
        taps.len() == map.len(),
        map_within(taps@, n as int),
{
    let mut taps: Vec<Tap> = Vec::new();
    let len: usize = map.len();
    let mut i: usize = 0;
    while i < len
        invariant
            i <= len,
            len == map.len(),
            taps.len() == i,
            map_within(map@, n as int),
            map_within(taps@, n as int),
            forall|k: int| 0 <= k < i ==> taps@[k] == #[trigger] settled(map@, n as int)[k],
        decreases len - i,
    {
        let tap: Tap = if len == n {
            Tap::new(i, 0, n)
        } else {
            Tap { i0: map[i].i0, i1: map[i].i1, f: map[i].f }
        };
        proof {
            assert(map@[i as int].reads_within(n as int));
            assert(tap == settled(map@, n as int)[i as int]);
        }
        taps.push(tap);
        i = i + 1;
    }
    assert(taps@ =~= settled(map@, n as int));
    taps
}

/// Enlarges the picture to one column for each tap of `xmap` and one row for each tap
/// of `ymap`, as packed pixels with red highest. Along an axis that keeps its size nothing
/// is interpolated.
pub fn bilinear_u32(tiny: &Tiny, xmap: &[Tap], ymap: &[Tap]) -> (mid: Vec<u32>)
    requires
        tiny.wf(),
        map_within(xmap@, tiny.w as int),
        map_within(ymap@, tiny.h as int),
        xmap.len() * tiny.h * 3 <= usize::MAX,
        xmap.len() * ymap.len() <= usize::MAX,
    ensures
        mid@ == enlarged(tiny@, xmap@, ymap@),
        xmap.len() == tiny.w && ymap.len() == tiny.h ==> mid@ == packed_picture(tiny@),
{
    let xs: Vec<Tap> = settle(xmap, tiny.w);
    let ys: Vec<Tap> = settle(ymap, tiny.h);
    proof {
        if xmap.len() == tiny.w && ymap.len() == tiny.h {
            law_picture_at_its_own_size_is_kept(tiny@, xmap@, ymap@);
        }
    }
    interpolate(tiny, xs.as_slice(), ys.as_slice())
}

/// Channel `c` of every pixel of the picture is within `lo..=hi`.
pub open spec fn channel_within(image: Image, c: int, lo: int, hi: int) -> bool {
    forall|i: int|
        0 <= i < image.w * image.h ==> lo <= #[trigger] image.rgb[i * 3 + c] <= hi
}

/// Interpolation invents no colours: what a pixel mixes lies between the least and the
/// greatest value of the channel, so that a picture of one colour keeps it.
pub proof fn law_mixing_stays_in_range(
    image: Image,
    tx: Tap,
    ty: Tap,
    c: int,
    lo: int,
    hi: int,
)
    requires
        0 <= c < 3,
        tx.reads_within(image.w),
        ty.reads_within(image.h),
        channel_within(image, c, lo, hi),
    ensures
        lo <= mixed_at(image, tx, ty, c) <= hi,
{
    lemma_place(ty.i0 as int, image.h, tx.i0 as int, image.w);
    lemma_place(ty.i0 as int, image.h, tx.i1 as int, image.w);
    lemma_place(ty.i1 as int, image.h, tx.i0 as int, image.w);
    lemma_place(ty.i1 as int, image.h, tx.i1 as int, image.w);
    assert(image.h * image.w == image.w * image.h) by (nonlinear_arith);
    let (a, b) = (ty.i0 * image.w + tx.i0, ty.i0 * image.w + tx.i1);
    let (d, e) = (ty.i1 * image.w + tx.i0, ty.i1 * image.w + tx.i1);
    assert(lo <= image.rgb[a * 3 + c] <= hi);
    assert(lo <= image.rgb[b * 3 + c] <= hi);
    assert(lo <= image.rgb[d * 3 + c] <= hi);
    assert(lo <= image.rgb[e * 3 + c] <= hi);
    lemma_mixed_bounds(
        image.rgb[a * 3 + c] as int,
        image.rgb[b * 3 + c] as int,
        tx.f as int,
        lo,
        hi,
    );
    lemma_mixed_bounds(
        image.rgb[d * 3 + c] as int,
        image.rgb[e * 3 + c] as int,
        tx.f as int,
        lo,
        hi,
    );
    lemma_mixed_bounds(
        mixed_across(image, ty.i0 as int, tx, c),
        mixed_across(image, ty.i1 as int, tx, c),
        ty.f as int,
        lo,
        hi,
    );
}

proof fn lemma_mixed_alone(a: int, b: int, f: int)
    by (nonlinear_arith)
    ensures
        mixed(a, b, 0) == a,
        mixed(a, b, 256) == b,
        mixed(a, a, f) == a,
{
    assert(a * (256 - f) + a * f == a * 256);
}

/// Where each tap reads one place only, the pixel is the small picture's own.
pub proof fn law_unmixed_pixel_is_copied(image: Image, tx: Tap, ty: Tap, x: int, y: int, c: int)
    requires
        tx.reads_only(x),
        ty.reads_only(y),
    ensures
        mixed_at(image, tx, ty, c) == image.rgb[(y * image.w + x) * 3 + c],
{
    let (y0, y1) = (ty.i0 as int, ty.i1 as int);
    lemma_mixed_alone(
        image.rgb[(y0 * image.w + tx.i0) * 3 + c] as int,
        image.rgb[(y0 * image.w + tx.i1) * 3 + c] as int,
        tx.f as int,
    );
    lemma_mixed_alone(
        image.rgb[(y1 * image.w + tx.i0) * 3 + c] as int,
        image.rgb[(y1 * image.w + tx.i1) * 3 + c] as int,
        tx.f as int,
    );
    assert(mixed_across(image, y0, tx, c) == image.rgb[(y0 * image.w + x) * 3 + c]);
    assert(mixed_across(image, y1, tx, c) == image.rgb[(y1 * image.w + x) * 3 + c]);
    lemma_mixed_alone(
        mixed_across(image, y0, tx, c),
        mixed_across(image, y1, tx, c),
        ty.f as int,
    );
}

/// The picture's own pixels as numbers, red highest.
pub open spec fn packed_picture(image: Image) -> Seq<u32> {
    Seq::new(
        (image.w * image.h) as nat,
        |i: int|
            ((image.rgb[i * 3] as u32) << 16) | ((image.rgb[i * 3 + 1] as u32) << 8) | (image.rgb[i
                * 3 + 2] as u32),
    )
}

/// Taps that read their own places only read the picture as it is.
pub proof fn law_picture_read_place_by_place_is_kept(image: Image, xmap: Seq<Tap>, ymap: Seq<Tap>)
    requires
        xmap.len() == image.w,
        ymap.len() == image.h,
        forall|x: int| 0 <= x < image.w ==> (#[trigger] xmap[x]).reads_only(x),
        forall|y: int| 0 <= y < image.h ==> (#[trigger] ymap[y]).reads_only(y),
    ensures
        interpolated(image, xmap, ymap) == packed_picture(image),
{
    let (w, h) = (image.w, image.h);
    assert forall|i: int| 0 <= i < w * h implies #[trigger] interpolated(image, xmap, ymap)[i]
        == packed_picture(image)[i] by {
        let (x, y) = (i % w, i / w);
        assert(0 <= x < w && 0 <= y < h && y * w + x == i) by (nonlinear_arith)
            requires
                0 <= i < w * h,
                0 <= w,
                x == i % w,
                y == i / w,
        ;
        law_unmixed_pixel_is_copied(image, xmap[x], ymap[y], x, y, 0);
        law_unmixed_pixel_is_copied(image, xmap[x], ymap[y], x, y, 1);
        law_unmixed_pixel_is_copied(image, xmap[x], ymap[y], x, y, 2);
        let (r, g, b) = (image.rgb[i * 3], image.rgb[i * 3 + 1], image.rgb[i * 3 + 2]);
        assert(((r as u32) << 16) | ((g as u32) << 8) | (b as u32) == r as u32 * 65536 + g as u32
            * 256 + b as u32) by (bit_vector);
    }
    assert(interpolated(image, xmap, ymap) =~= packed_picture(image));
}

/// Enlarging a picture to its own size loses nothing: with one tap for each column and one
/// for each row, whatever the taps, the result is the picture.
pub proof fn law_picture_at_its_own_size_is_kept(image: Image, xmap: Seq<Tap>, ymap: Seq<Tap>)
    requires
        xmap.len() == image.w,
        ymap.len() == image.h,
        image.w <= usize::MAX,
        image.h <= usize::MAX,
    ensures
        enlarged(image, xmap, ymap) == packed_picture(image),
{
    let (xs, ys) = (settled(xmap, image.w), settled(ymap, image.h));
    assert forall|x: int| 0 <= x < image.w implies (#[trigger] xs[x]).reads_only(x) by {
        law_tap_on_a_place_reads_it_only(x as usize, 0, image.w as usize);
    }
    assert forall|y: int| 0 <= y < image.h implies (#[trigger] ys[y]).reads_only(y) by {
        law_tap_on_a_place_reads_it_only(y as usize, 0, image.h as usize);
    }
    law_picture_read_place_by_place_is_kept(image, xs, ys);
}

/// A tap that is put on a place, or a whole step before it, reads that place only; and so
/// does every tap from the last place on.
pub proof fn law_tap_on_a_place_reads_it_only(floor: usize, frac: u32, src: usize)
    requires
        src > 0,
    ensures
        floor < src && frac == 0 ==> tap_at(floor, frac, src).reads_only(floor as int),
        floor + 1 < src && frac >= 256 ==> tap_at(floor, frac, src).reads_only(floor + 1),
        floor + 1 >= src ==> tap_at(floor, frac, src).reads_only(src - 1),
{
}

} // verus!
