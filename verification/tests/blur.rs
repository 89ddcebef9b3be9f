use blurscreen::blur::{blur_radius, box_blur, box_pass_h, box_pass_v};

/// The mean of every window, taken sample by sample.
fn plain_pass(src: &[u8], w: usize, h: usize, r: usize, down: bool) -> Vec<u8> {
    let norm = (2 * r + 1) as u32;
    let recip = (65536 + norm / 2) / norm;
    let mut out = Vec::new();
    for y in 0..h as isize {
        for x in 0..w as isize {
            for c in 0..3 {
                let mut sum = 0u32;
                for o in -(r as isize)..=r as isize {
                    let (sx, sy) = if down { (x, y + o) } else { (x + o, y) };
                    let sx = sx.clamp(0, w as isize - 1) as usize;
                    let sy = sy.clamp(0, h as isize - 1) as usize;
                    sum += src[(sy * w + sx) * 3 + c] as u32;
                }
                out.push(((sum * recip) >> 16) as u8);
            }
        }
    }
    out
}

fn noise(n: usize) -> Vec<u8> {
    (0..n).map(|i| ((i * i * 31 + i * 7 + 1) % 256) as u8).collect()
}

#[test]
fn horizontal_pass_means_each_window() {
    let src = [0, 10, 20, 30, 40, 50, 255, 250, 245];
    let mut dst = [0u8; 9];
    box_pass_h(&src, &mut dst, 3, 1, 1);
    assert_eq!(dst, [9, 19, 29, 94, 99, 104, 179, 179, 179]);
}

#[test]
fn vertical_pass_means_each_window() {
    let src = [0, 10, 20, 30, 40, 50, 255, 250, 245];
    let mut dst = [0u8; 9];
    box_pass_v(&src, &mut dst, 1, 3, 1);
    assert_eq!(dst, [9, 19, 29, 94, 99, 104, 179, 179, 179]);
}

#[test]
fn passes_agree_with_windows_taken_one_by_one() {
    for (w, h) in [(1, 1), (2, 3), (5, 4), (9, 7)] {
        let src = noise(w * h * 3);
        for r in [0, 1, 2, 3, 8, 20] {
            let mut dst = vec![0u8; w * h * 3];
            box_pass_h(&src, &mut dst, w, h, r);
            assert_eq!(dst, plain_pass(&src, w, h, r, false));
            box_pass_v(&src, &mut dst, w, h, r);
            assert_eq!(dst, plain_pass(&src, w, h, r, true));
        }
    }
}

#[test]
fn passes_leave_what_follows_the_image() {
    let src = noise(20);
    let mut dst = vec![77u8; 15];
    box_pass_h(&src, &mut dst, 2, 2, 1);
    assert_eq!(&dst[12..], &[77, 77, 77]);
    box_pass_v(&src, &mut dst, 2, 2, 1);
    assert_eq!(&dst[12..], &[77, 77, 77]);
}

#[test]
fn passes_over_nothing_change_nothing() {
    let mut dst = vec![5u8; 4];
    box_pass_h(&[], &mut dst, 0, 0, 2);
    assert_eq!(dst, [5, 5, 5, 5]);
    box_pass_v(&[], &mut dst, 0, 3, 2);
    assert_eq!(dst, [5, 5, 5, 5]);
}

#[test]
fn wide_windows_keep_the_fixed_point_arithmetic() {
    let src = [255u8; 6];
    let mut dst = [1u8; 6];
    box_pass_h(&src, &mut dst, 2, 1, 300);
    assert_eq!(dst, [254; 6]);
    // The factor rounds up so far that the byte wraps.
    box_pass_h(&src, &mut dst, 2, 1, 276);
    assert_eq!(dst, [0; 6]);
    // The factor rounds down to nothing.
    box_pass_h(&src, &mut dst, 2, 1, 70000);
    assert_eq!(dst, [0; 6]);
}

#[test]
fn blur_is_two_rounds_of_both_passes() {
    let mut rgb = vec![0, 10, 20, 30, 40, 50, 255, 250, 245, 7, 6, 5, 4, 3, 2, 1, 0, 9];
    box_blur(&mut rgb, 3, 2, 13);
    assert_eq!(
        rgb,
        [21, 25, 30, 51, 54, 58, 83, 83, 86, 17, 20, 24, 41, 43, 47, 66, 66, 70]
    );
    let mut rgb = vec![0, 10, 20, 30, 40, 50, 255, 250, 245, 7, 6, 5, 4, 3, 2, 1, 0, 9];
    box_blur(&mut rgb, 3, 2, 17);
    assert_eq!(
        rgb,
        [45, 47, 51, 55, 57, 61, 66, 67, 70, 42, 44, 47, 51, 53, 56, 61, 62, 65]
    );
}

#[test]
fn blur_leaves_what_follows_the_image() {
    let mut rgb = noise(2 * 2 * 3 + 2);
    let tail = rgb[12..].to_vec();
    box_blur(&mut rgb, 2, 2, 22);
    assert_eq!(rgb[12..], tail[..]);
}

#[test]
fn blur_leaves_thin_images_alone() {
    let before = noise(9);
    let mut rgb = before.clone();
    box_blur(&mut rgb, 1, 3, 22);
    assert_eq!(rgb, before);
    box_blur(&mut rgb, 3, 1, 22);
    assert_eq!(rgb, before);
    box_blur(&mut rgb, 0, 900, 22);
    assert_eq!(rgb, before);
}

#[test]
fn blur_takes_at_most_four_levels_off_an_even_image() {
    for v in 0..=255u8 {
        for sigma in [13, 17, 22] {
            let mut rgb = vec![v; 4 * 3 * 3];
            box_blur(&mut rgb, 4, 3, sigma);
            for b in rgb {
                assert!(b <= v && b as u32 + 4 >= v as u32);
            }
        }
    }
    let mut white = vec![255u8; 12];
    box_blur(&mut white, 2, 2, 13);
    assert_eq!(white, [251; 12]);
}

#[test]
fn blur_keeps_each_channel_in_its_own_range() {
    let mut rgb: Vec<u8> = (0..8 * 6).flat_map(|i| [200 + i % 9, 90 + i % 5, 10 + i % 7]).collect();
    box_blur(&mut rgb, 8, 6, 17);
    for p in rgb.chunks(3) {
        assert!((196..=208).contains(&p[0]) && (86..=94).contains(&p[1]) && (6..=16).contains(&p[2]));
    }
}

#[test]
fn window_bytes_are_near_the_mean() {
    let src = noise(7 * 3);
    for r in [1usize, 2, 5, 100, 256, 266] {
        let mut dst = vec![0u8; 21];
        box_pass_h(&src, &mut dst, 7, 1, r);
        for x in 0..7isize {
            let mut sum = 0i64;
            for o in -(r as isize)..=r as isize {
                sum += src[(x + o).clamp(0, 6) as usize * 3] as i64;
            }
            let mean = sum / (2 * r as i64 + 1);
            let got = dst[x as usize * 3] as i64;
            assert!((got - mean).abs() <= 1);
        }
    }
}

#[test]
fn radius_is_the_nearest_whole_pixel_and_at_least_one() {
    for tenths in 0..400u32 {
        let sigma = tenths as f32 / 10.0;
        assert_eq!(blur_radius(tenths), (sigma.round() as usize).max(1));
    }
    assert_eq!(blur_radius(13), 1);
    assert_eq!(blur_radius(17), 2);
    assert_eq!(blur_radius(22), 2);
    assert_eq!(blur_radius(u32::MAX), 429496730);
}
