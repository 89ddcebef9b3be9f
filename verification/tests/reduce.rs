use blurscreen::blur::box_blur;
use blurscreen::frame::{frame_parts, Frame, Picture};
use blurscreen::reduce::process_frame;
use blurscreen::settings::strength_at;

fn picture(width: i32, height: i32, data: Vec<u8>) -> Picture {
    Picture { width, height, data }
}

fn noise(n: usize) -> Vec<u8> {
    (0..n).map(|i| ((i * i * 31 + i * 7 + 1) % 256) as u8).collect()
}

/// The reduced picture with its size, bin by bin, straight from the definition.
fn plain_reduction(w: usize, h: usize, data: &[u8], target: usize) -> (usize, usize, Vec<u8>) {
    let tw = target.clamp(2, w.max(2));
    let th = ((h * tw + w / 2) / w).clamp(2, h.max(2));
    let step = (w / (tw * 3)).min(h / (th * 3)).max(1);
    let (cols, rows) = (w.max(2), h.max(2));
    let mut out = Vec::new();
    for by in 0..th {
        for bx in 0..tw {
            for c in 0..3 {
                let (mut sum, mut count) = (0usize, 0usize);
                for y in (0..rows).step_by(step) {
                    for x in (0..cols).step_by(step) {
                        if x * tw / cols == bx && y * th / rows == by {
                            sum += data[(y.min(h - 1) * w + x.min(w - 1)) * 3 + c] as usize;
                            count += 1;
                        }
                    }
                }
                assert!(count > 0);
                out.push((sum / count) as u8);
            }
        }
    }
    (tw, th, out)
}

#[test]
fn parts_follow_the_pixel_format() {
    let parts = |frame: &Frame| {
        let (w, h, data, px, rgb) = frame_parts(frame).unwrap();
        (w, h, data.to_vec(), px, rgb)
    };
    let p = || picture(2, 1, vec![9, 8, 7]);
    assert_eq!(parts(&Frame::BGRA(p())), (2, 1, vec![9, 8, 7], 4, [2, 1, 0]));
    assert_eq!(parts(&Frame::BGRx(p())), (2, 1, vec![9, 8, 7], 4, [2, 1, 0]));
    assert_eq!(parts(&Frame::RGBx(p())), (2, 1, vec![9, 8, 7], 4, [0, 1, 2]));
    assert_eq!(parts(&Frame::XBGR(p())), (2, 1, vec![9, 8, 7], 4, [3, 2, 1]));
    assert_eq!(parts(&Frame::BGR0(p())), (2, 1, vec![9, 8, 7], 3, [2, 1, 0]));
    assert_eq!(parts(&Frame::RGB(p())), (2, 1, vec![9, 8, 7], 3, [0, 1, 2]));
}

#[test]
fn frames_without_pixels_have_no_parts() {
    assert!(frame_parts(&Frame::YUVFrame).is_none());
    assert!(frame_parts(&Frame::RGB(picture(0, 4, vec![]))).is_none());
    assert!(frame_parts(&Frame::RGB(picture(4, 0, vec![]))).is_none());
    assert!(frame_parts(&Frame::BGRA(picture(-3, 4, vec![0; 99]))).is_none());
    assert!(frame_parts(&Frame::BGRA(picture(3, i32::MIN, vec![0; 99]))).is_none());
}

#[test]
fn unreadable_frames_come_to_nothing() {
    assert!(process_frame(&Frame::YUVFrame, 320, 17, 0).is_none());
    assert!(process_frame(&Frame::RGB(picture(-1, 4, vec![0; 99])), 320, 17, 0).is_none());
    // One byte short.
    assert!(process_frame(&Frame::RGB(picture(4, 2, vec![0; 23])), 320, 17, 0).is_none());
    assert!(process_frame(&Frame::RGB(picture(4, 2, vec![0; 24])), 320, 17, 0).is_some());
    assert!(process_frame(&Frame::BGRA(picture(4, 2, vec![0; 31])), 320, 17, 0).is_none());
    let huge = picture(i32::MAX, i32::MAX, vec![0; 8]);
    assert!(process_frame(&Frame::BGRA(huge), 320, 17, 0).is_none());
}

#[test]
fn small_frame_is_averaged_hashed_and_blurred() {
    let data: Vec<u8> = (0..24).map(|i| (i * 7 + 3) as u8).collect();
    let frame = Frame::RGB(picture(4, 2, data));
    let out = process_frame(&frame, 2, 13, 0).unwrap();
    assert_eq!(out.hash, 183536092907522061);
    let tiny = out.tiny.unwrap();
    assert_eq!((tiny.w, tiny.h), (2, 2));
    assert_eq!(tiny.rgb, [66, 73, 80, 71, 78, 85, 75, 82, 89, 80, 87, 94]);
}

#[test]
fn channels_are_taken_from_their_places() {
    let data: Vec<u8> = (0..96).map(|i| ((i * 13 + 5) % 256) as u8).collect();
    let frame = Frame::BGRA(picture(6, 4, data));
    let out = process_frame(&frame, 3, 17, 0).unwrap();
    assert_eq!(out.hash, 8138515258635431415);
    let tiny = out.tiny.unwrap();
    assert_eq!((tiny.w, tiny.h), (3, 2));
    assert_eq!(
        tiny.rgb,
        [134, 121, 108, 133, 120, 107, 132, 119, 106, 136, 123, 110, 135, 122, 109, 133, 120, 107]
    );
}

#[test]
fn wide_frame_is_visited_in_steps() {
    let frame = Frame::RGB(picture(30, 12, noise(30 * 12 * 3)));
    let out = process_frame(&frame, 5, 13, 0).unwrap();
    assert_eq!(out.hash, 0x873827c1b2810d7f);
    let tiny = out.tiny.unwrap();
    assert_eq!((tiny.w, tiny.h), (5, 2));
    assert_eq!(
        tiny.rgb,
        [
            137, 124, 114, 130, 123, 116, 126, 120, 121, 129, 118, 126, 135, 115, 129, 142, 122,
            116, 133, 121, 118, 126, 117, 124, 128, 117, 129, 135, 115, 133
        ]
    );
}

#[test]
fn reductions_agree_with_bins_taken_one_by_one() {
    for (w, h) in [(1, 1), (1, 9), (9, 1), (2, 2), (7, 5), (40, 3), (33, 21), (64, 64)] {
        for target in [0, 2, 3, 5, 8, 100] {
            let data = noise(w * h * 3);
            let frame = Frame::RGB(picture(w as i32, h as i32, data.clone()));
            let (tw, th, mut want) = plain_reduction(w, h, &data, target);
            let tiny = process_frame(&frame, target, 22, 0).unwrap().tiny.unwrap();
            assert_eq!((tiny.w, tiny.h), (tw, th));
            box_blur(&mut want, tw, th, 22);
            assert_eq!(tiny.rgb, want);
        }
    }
}

#[test]
fn picture_is_never_wider_than_asked() {
    for w in [1, 2, 3, 50, 640] {
        let frame = Frame::RGB(picture(w, 30, noise(w as usize * 90)));
        for target in [0usize, 1, 2, 7, 192, 480] {
            let tiny = process_frame(&frame, target, 22, 0).unwrap().tiny.unwrap();
            assert!(tiny.w >= 2 && tiny.w <= target.max(2) && tiny.w <= (w as usize).max(2));
            assert!(tiny.h >= 2 && tiny.h <= 30);
            assert_eq!(tiny.rgb.len(), tiny.w * tiny.h * 3);
        }
    }
}

#[test]
fn strong_reduction_of_a_large_screen() {
    let frame = Frame::RGB(picture(3840, 2160, vec![90; 3840 * 2160 * 3]));
    let tiny = process_frame(&frame, 192, 22, 0).unwrap().tiny.unwrap();
    assert_eq!((tiny.w, tiny.h), (192, 108));
    assert!(tiny.rgb.iter().all(|b| *b <= 90 && *b >= 86));
}

#[test]
fn unchanged_frame_is_passed_over() {
    let frame = Frame::RGB(picture(12, 9, noise(12 * 9 * 3)));
    let first = process_frame(&frame, 6, 17, 0).unwrap();
    assert!(first.tiny.is_some());
    let again = process_frame(&frame, 6, 17, first.hash).unwrap();
    assert_eq!(again.hash, first.hash);
    assert!(again.tiny.is_none());
    let mut other = noise(12 * 9 * 3);
    other[0] ^= 0xff;
    let changed = process_frame(&Frame::RGB(picture(12, 9, other)), 6, 17, first.hash).unwrap();
    assert_ne!(changed.hash, first.hash);
    assert!(changed.tiny.is_some());
}

#[test]
fn bytes_that_are_no_colour_leave_no_trace() {
    let data = noise(8 * 6 * 4);
    let mut other = data.clone();
    for i in 0..48 {
        other[i * 4 + 3] = !other[i * 4 + 3];
    }
    let a = process_frame(&Frame::BGRA(picture(8, 6, data)), 4, 17, 1).unwrap();
    let b = process_frame(&Frame::BGRA(picture(8, 6, other)), 4, 17, 1).unwrap();
    assert_eq!(a.hash, b.hash);
    assert_eq!(a.tiny.unwrap().rgb, b.tiny.unwrap().rgb);
}

#[test]
fn every_packed_format_shows_the_same() {
    let (w, h) = (30usize, 12usize);
    let colours = noise(w * h * 3);
    let packed = |size: usize, at: [usize; 3]| {
        let mut data = vec![0xa5u8; w * h * size + 5];
        for i in 0..w * h {
            for c in 0..3 {
                data[i * size + at[c]] = colours[i * 3 + c];
            }
        }
        picture(w as i32, h as i32, data)
    };
    let frames = [
        Frame::RGB(packed(3, [0, 1, 2])),
        Frame::BGR0(packed(3, [2, 1, 0])),
        Frame::BGRA(packed(4, [2, 1, 0])),
        Frame::BGRx(packed(4, [2, 1, 0])),
        Frame::RGBx(packed(4, [0, 1, 2])),
        Frame::XBGR(packed(4, [3, 2, 1])),
    ];
    for frame in frames {
        let out = process_frame(&frame, 5, 13, 0).unwrap();
        assert_eq!(out.hash, 0x873827c1b2810d7f);
        assert_eq!(out.tiny.unwrap().rgb[..3], [137, 124, 114]);
    }
}

#[test]
fn pixels_that_the_steps_pass_over_leave_no_trace() {
    // Thirty columns to five: every other pixel is visited.
    let data = noise(30 * 12 * 3);
    let mut other = data.clone();
    for y in 0..12 {
        for x in 0..30 {
            if x % 2 == 1 || y % 2 == 1 {
                other[(y * 30 + x) * 3] = 0;
                other[(y * 30 + x) * 3 + 2] = 255;
            }
        }
    }
    let a = process_frame(&Frame::RGB(picture(30, 12, data)), 5, 17, 1).unwrap();
    let b = process_frame(&Frame::RGB(picture(30, 12, other)), 5, 17, 1).unwrap();
    assert_eq!(a.hash, b.hash);
    assert_eq!(a.tiny.unwrap().rgb, b.tiny.unwrap().rgb);
}

#[test]
fn pixels_of_a_bin_can_be_exchanged_unseen() {
    // Eight columns to four: pixels 0 and 1 of rows 0 and 1 share a bin.
    let data = noise(8 * 8 * 3);
    let mut other = data.clone();
    for c in 0..3 {
        other.swap(c, (8 + 1) * 3 + c);
    }
    assert_ne!(data, other);
    let a = process_frame(&Frame::RGB(picture(8, 8, data)), 4, 17, 1).unwrap();
    let b = process_frame(&Frame::RGB(picture(8, 8, other)), 4, 17, 1).unwrap();
    assert_eq!(a.hash, b.hash);
    assert_eq!(a.tiny.unwrap().rgb, b.tiny.unwrap().rgb);
}

#[test]
fn flat_frame_of_one_colour_stays_one_colour() {
    let flat = Frame::RGB(picture(100, 2, vec![200; 600]));
    let tiny = process_frame(&flat, 2, 10, 0).unwrap().tiny.unwrap();
    assert_eq!((tiny.w, tiny.h), (2, 2));
    assert_eq!(tiny.rgb, [196; 12]);
    for (w, h) in [(1, 1), (1, 50), (50, 1), (60, 2), (2, 60), (5000, 3), (3, 5000), (700, 9)] {
        for target in [0, 2, 5, 192, 480] {
            let frame = Frame::RGB(picture(w, h, vec![200; w as usize * h as usize * 3]));
            let tiny = process_frame(&frame, target, 13, 0).unwrap().tiny.unwrap();
            assert!(tiny.rgb.iter().all(|b| *b == 196));
        }
    }
}

#[test]
fn steps_suit_the_shorter_side() {
    // Ten columns make a third of a bin, but not one row does: every pixel counts.
    let mut data = vec![0u8; 60 * 2 * 3];
    for b in &mut data[180..] {
        *b = 100;
    }
    let out = process_frame(&Frame::RGB(picture(60, 2, data)), 2, 13, 0).unwrap();
    let mut want = vec![0, 0, 0, 0, 0, 0, 100, 100, 100, 100, 100, 100];
    box_blur(&mut want, 2, 2, 13);
    assert_eq!(out.tiny.unwrap().rgb, want);
}

#[test]
fn single_pixels_fill_both_bins_of_an_axis() {
    let dot = Frame::RGB(picture(1, 1, vec![10, 20, 30]));
    let even = Frame::RGB(picture(2, 2, [10, 20, 30].repeat(4)));
    let a = process_frame(&dot, 320, 13, 0).unwrap();
    let b = process_frame(&even, 320, 13, 0).unwrap();
    assert_eq!(a.hash, b.hash);
    assert_eq!(a.tiny.unwrap().rgb, b.tiny.unwrap().rgb);
    let column = Frame::RGB(picture(1, 2, vec![1, 2, 3, 101, 102, 103]));
    let wide = Frame::RGB(picture(2, 2, vec![1, 2, 3, 1, 2, 3, 101, 102, 103, 101, 102, 103]));
    let a = process_frame(&column, 320, 13, 0).unwrap();
    let b = process_frame(&wide, 320, 13, 0).unwrap();
    assert_eq!(a.hash, b.hash);
}

#[test]
fn pixels_of_a_single_row_can_be_exchanged_unseen() {
    // Of the forty pixels of the row, the first twenty are one bin.
    let data = noise(40 * 3);
    let mut other = data.clone();
    for c in 0..3 {
        other.swap(c, 19 * 3 + c);
    }
    assert_ne!(data, other);
    let a = process_frame(&Frame::RGB(picture(40, 1, data)), 2, 17, 1).unwrap();
    let b = process_frame(&Frame::RGB(picture(40, 1, other)), 2, 17, 1).unwrap();
    assert_eq!(a.hash, b.hash);
}

#[test]
fn even_frame_stays_in_range() {
    let frame = Frame::BGRx(picture(640, 360, vec![128; 640 * 360 * 4]));
    for (target, sigma) in [(480, 13), (320, 17), (192, 22)] {
        let tiny = process_frame(&frame, target, sigma, 0).unwrap().tiny.unwrap();
        assert_eq!(tiny.w, target);
        assert!(tiny.rgb.iter().all(|b| (124..=128).contains(b)));
    }
}

#[test]
fn stronger_blur_keeps_no_more() {
    for (w, h) in [(1920, 1080), (400, 300), (100, 900), (7, 3)] {
        let frame = Frame::RGB(picture(w, h, noise(w as usize * h as usize * 3)));
        let sizes: Vec<(usize, usize)> = (0..3)
            .map(|i| strength_at(i))
            .map(|s| process_frame(&frame, s.target_w, s.sigma_tenths, 0).unwrap())
            .map(|out| out.tiny.unwrap())
            .map(|tiny| (tiny.w, tiny.h))
            .collect();
        assert!(sizes[0].0 >= sizes[1].0 && sizes[1].0 >= sizes[2].0);
        assert!(sizes[0].1 >= sizes[1].1 && sizes[1].1 >= sizes[2].1);
    }
}
