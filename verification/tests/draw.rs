use blurscreen::draw::{can_draw, draw, draw_tiny, letterbox, mid_size, Scaling, BACKGROUND};
use blurscreen::reduce::Tiny;
use blurscreen::scale::{bilinear_u32, nearest_index, Tap};

fn tap(i0: usize, i1: usize, f: u32) -> Tap {
    Tap { i0, i1, f }
}

/// Taps that repeat the nearest of `src` positions over `dst`.
fn repeating(dst: usize, src: usize) -> Vec<Tap> {
    (0..dst).map(|d| Tap::new(d * src / dst, 0, src)).collect()
}

fn tiny(w: usize, h: usize, rgb: Vec<u8>) -> Tiny {
    Tiny { w, h, rgb }
}

#[test]
fn taps_stay_within_the_picture() {
    let t = Tap::new(1, 100, 4);
    assert_eq!((t.i0, t.i1, t.f), (1, 2, 100));
    let t = Tap::new(3, 0, 4);
    assert_eq!((t.i0, t.i1, t.f), (3, 3, 0));
    let t = Tap::new(9, 300, 4);
    assert_eq!((t.i0, t.i1, t.f), (3, 3, 256));
    let t = Tap::new(0, 256, 1);
    assert_eq!((t.i0, t.i1, t.f), (0, 0, 256));
    assert_eq!(nearest_index(7, 8), 7);
    assert_eq!(nearest_index(8, 8), 7);
}

#[test]
fn enlarging_mixes_neighbours() {
    let t = tiny(2, 2, vec![0, 0, 0, 200, 100, 50, 40, 80, 120, 255, 255, 255]);
    let xmap = [tap(0, 1, 0), tap(0, 1, 128), tap(0, 1, 256)];
    let ymap = [tap(0, 1, 0), tap(0, 1, 64), tap(0, 1, 256)];
    let mid = bilinear_u32(&t, &xmap, &ymap);
    // Across: (0, 100, 200), (0, 50, 100), (0, 25, 50) above;
    // (40, 147, 255), (80, 167, 255), (120, 187, 255) below.
    assert_eq!(
        mid,
        [
            0x000000, 0x643219, 0xc86432, 0x0a141e, 0x6f4f41, 0xd58a65, 0x285078, 0x93a7bb,
            0xffffff
        ]
    );
}

#[test]
fn enlarging_keeps_pixels_that_are_not_mixed() {
    let t = tiny(3, 2, (0..18).collect());
    let mid = bilinear_u32(&t, &repeating(3, 3), &repeating(2, 2));
    assert_eq!(mid, [0x000102, 0x030405, 0x060708, 0x090a0b, 0x0c0d0e, 0x0f1011]);
}

#[test]
fn enlarging_one_colour_keeps_it() {
    let t = tiny(2, 3, [17u8, 130, 255].repeat(6));
    let xmap: Vec<Tap> = (0..300).map(|i| tap(0, 1, i % 257)).collect();
    let ymap: Vec<Tap> = (0..5).map(|i| tap(1, 2, i * 60)).collect();
    assert!(bilinear_u32(&t, &xmap, &ymap).iter().all(|p| *p == 0x1182ff));
}

#[test]
fn enlarging_to_nothing_gives_nothing() {
    let t = tiny(2, 2, vec![1; 12]);
    assert!(bilinear_u32(&t, &[], &[]).is_empty());
    assert!(bilinear_u32(&t, &[], &repeating(4, 2)).is_empty());
}

#[test]
fn picture_is_centred_in_the_window() {
    let p = letterbox(10, 7, 4, 9);
    assert_eq!((p.ox, p.oy, p.dw, p.dh), (3, 0, 4, 7));
    let p = letterbox(11, 8, 4, 0);
    assert_eq!((p.ox, p.oy, p.dw, p.dh), (3, 3, 4, 1));
    let p = letterbox(1, 1, 0, 50);
    assert_eq!((p.ox, p.oy, p.dw, p.dh), (0, 0, 1, 1));
}

#[test]
fn interpolation_stops_at_the_cap() {
    assert_eq!(mid_size(1024, 700), (1024, 700));
    assert_eq!(mid_size(2048, 1000), (1024, 500));
    assert_eq!(mid_size(1025, 1), (1024, 1));
    assert_eq!(mid_size(4000, 1), (1024, 1));
    assert_eq!(mid_size(3840, 2160), (1024, 576));
    assert_eq!(mid_size(usize::MAX, usize::MAX), (1024, 1024));
}

#[test]
fn narrow_picture_is_copied_between_its_margins() {
    let t = tiny(2, 1, vec![1, 2, 3, 4, 5, 6]);
    let scaling = Scaling { fit_w: 2, fit_h: 1, xmap: repeating(2, 2), ymap: repeating(1, 1) };
    let mut out = vec![9u32; 4 * 3 + 2];
    draw_tiny(&t, &scaling, &mut out, 4, 3);
    let b = BACKGROUND;
    assert_eq!(out, [b, b, b, b, b, 0x010203, 0x040506, b, b, b, b, b, 9, 9]);
}

#[test]
fn wide_picture_repeats_interpolated_pixels() {
    let (bw, bh) = (2048usize, 4usize);
    let t = tiny(2, 2, vec![10, 0, 0, 20, 0, 0, 30, 0, 0, 40, 0, 0]);
    let (mw, mh) = mid_size(bw, bh);
    assert_eq!((mw, mh), (1024, 2));
    let scaling =
        Scaling { fit_w: bw, fit_h: bh, xmap: repeating(mw, 2), ymap: repeating(mh, 2) };
    let mut out = vec![0u32; bw * bh];
    draw_tiny(&t, &scaling, &mut out, bw, bh);
    for y in 0..bh {
        for x in 0..bw {
            let want = match (x * mw / bw < 512, y * mh / bh) {
                (true, 0) => 0x0a0000,
                (false, 0) => 0x140000,
                (true, _) => 0x1e0000,
                (false, _) => 0x280000,
            };
            assert_eq!(out[y * bw + x], want);
        }
    }
}

#[test]
fn every_pixel_of_the_window_is_painted() {
    for (bw, bh, fit_w, fit_h) in [(5, 5, 3, 2), (7, 3, 7, 1), (3, 9, 1, 9), (1500, 6, 1300, 5)] {
        let t = tiny(3, 3, (0..27).map(|i| i * 9).collect());
        let p = letterbox(bw, bh, fit_w, fit_h);
        let (mw, mh) = mid_size(p.dw, p.dh);
        let xmap: Vec<Tap> = (0..mw).map(|i| Tap::new(i * 3 / mw, (i * 37 % 257) as u32, 3)).collect();
        let ymap: Vec<Tap> = (0..mh).map(|i| Tap::new(i * 3 / mh, (i * 91 % 257) as u32, 3)).collect();
        let mid = bilinear_u32(&t, &xmap, &ymap);
        let scaling = Scaling { fit_w, fit_h, xmap, ymap };
        let mut out = vec![u32::MAX; bw * bh];
        draw_tiny(&t, &scaling, &mut out, bw, bh);
        for y in 0..bh {
            for x in 0..bw {
                let inside = p.ox <= x && x < p.ox + p.dw && p.oy <= y && y < p.oy + p.dh;
                let want = if inside {
                    mid[(y - p.oy) * mh / p.dh * mw + (x - p.ox) * mw / p.dw]
                } else {
                    0x0014_1418
                };
                assert_eq!(out[y * bw + x], want);
            }
        }
    }
}

#[test]
fn picture_without_area_leaves_background() {
    let scaling = Scaling { fit_w: 0, fit_h: 0, xmap: vec![], ymap: vec![] };
    let mut out = vec![1u32; 5];
    draw_tiny(&tiny(0, 3, vec![]), &scaling, &mut out, 40, 40);
    assert_eq!(out, [BACKGROUND; 5]);
    let mut out = vec![1u32; 5];
    assert!(draw(None, &scaling, &mut out, 5, 1));
    assert_eq!(out, [BACKGROUND; 5]);
}

#[test]
fn measures_that_do_not_suit_paint_nothing() {
    let t = tiny(2, 2, vec![8; 12]);
    let good = || Scaling { fit_w: 2, fit_h: 2, xmap: repeating(2, 2), ymap: repeating(2, 2) };
    assert!(can_draw(&t, &good(), 3, 2, 6));
    let refused = |scaling: &Scaling, bw: usize, bh: usize| {
        let mut out = vec![3u32; 6];
        let painted = draw(Some(&t), scaling, &mut out, bw, bh);
        !painted && out == [3; 6]
    };
    assert!(refused(&good(), 3, 3));
    assert!(refused(&good(), 0, 2));
    assert!(refused(&good(), 1, 2));
    let mut s = good();
    s.xmap.pop();
    assert!(refused(&s, 3, 2));
    let mut s = good();
    s.ymap[1].i1 = 2;
    assert!(refused(&s, 3, 2));
    let mut s = good();
    s.xmap[0].f = 257;
    assert!(refused(&s, 3, 2));
    let short = tiny(2, 2, vec![8; 11]);
    assert!(!can_draw(&short, &good(), 3, 2, 6));
    let mut out = vec![3u32; 6];
    assert!(draw(Some(&t), &good(), &mut out, 3, 2));
    assert_eq!(out, [0x080808, 0x080808, BACKGROUND, 0x080808, 0x080808, BACKGROUND]);
}

/// Taps at the middles of `dst` equal parts of `src` positions.
fn centred(dst: usize, src: usize) -> Vec<Tap> {
    (0..dst)
        .map(|d| {
            let pos = ((d as f64 + 0.5) / dst as f64 * src as f64 - 0.5).max(0.0);
            let floor = pos.floor() as usize;
            let past = pos - nearest_index(floor, src) as f64;
            Tap::new(floor, (past * 256.0).round() as u32, src)
        })
        .collect()
}

#[test]
fn picture_at_its_own_size_is_kept() {
    for (w, h) in [(1, 1), (2, 3), (7, 5), (49, 98), (480, 270), (323, 7)] {
        let t = tiny(w, h, (0..w * h * 3).map(|i| (i * i * 31 + i * 7) as u8).collect());
        let own: Vec<u32> = t
            .rgb
            .chunks(3)
            .map(|p| (p[0] as u32) << 16 | (p[1] as u32) << 8 | p[2] as u32)
            .collect();
        assert_eq!(bilinear_u32(&t, &centred(w, w), &centred(h, h)), own);
        // Whatever was measured: an axis that keeps its size is not interpolated.
        let mixed = |n: usize| -> Vec<Tap> { (0..n).map(|k| Tap::new(k / 2, 77, n)).collect() };
        assert_eq!(bilinear_u32(&t, &mixed(w), &mixed(h)), own);
    }
    // Measured positions would read the same: rounding never moves a tap off its place.
    for n in 1..1500 {
        for (k, t) in centred(n, n).iter().enumerate() {
            assert!((t.f == 256 || t.i0 == k) && (t.f == 0 || t.i1 == k));
        }
    }
}

#[test]
fn picture_is_enlarged_smoothly() {
    let t = tiny(2, 1, vec![0, 0, 0, 255, 255, 255]);
    let scaling = Scaling { fit_w: 8, fit_h: 4, xmap: centred(8, 2), ymap: centred(4, 1) };
    let mut out = vec![7u32; 8 * 6];
    assert!(draw(Some(&t), &scaling, &mut out, 8, 6));
    let row = [0, 0, 0x1f1f1f, 0x5f5f5f, 0x9f9f9f, 0xdfdfdf, 0xffffff, 0xffffff];
    for y in 0..6 {
        let want = if y == 0 || y == 5 { [BACKGROUND; 8] } else { row };
        assert_eq!(out[y * 8..(y + 1) * 8], want);
    }
}
