use blurscreen::config::{is_whitespace, load_config, save_config};
use blurscreen::settings::{fps_at, strength_at, FPS_OPTIONS, STRENGTHS, WINDOW_TITLE};
use blurscreen::shared::Shared;
use blurscreen::text::{begins_with, chars_of, is_word, push_decimal, spells};

/// The strength, the frame rate and the display that the text leads to.
fn loaded(text: &str) -> (usize, usize, usize) {
    let mut shared = Shared::new();
    load_config(&mut shared, text);
    (shared.strength, shared.fps_idx, shared.display_idx)
}

#[test]
fn start_is_medium_blur_on_the_first_display() {
    let shared = Shared::new();
    assert!(shared.frame.is_none());
    assert_eq!(shared.status, "");
    assert_eq!((shared.strength, shared.fps_idx), (1, 1));
    assert_eq!((shared.display_idx, shared.display_count), (0, 1));
    assert!(!shared.paused && !shared.rebuild && !shared.quit);
    assert_eq!(shared.generation, 0);
}

#[test]
fn choices_are_those_offered() {
    assert_eq!(WINDOW_TITLE, "Blur Screen");
    assert_eq!((STRENGTHS, FPS_OPTIONS), (3, 3));
    let strengths: Vec<(usize, u32, &str)> = (0..4)
        .map(|i| strength_at(i))
        .map(|s| (s.target_w, s.sigma_tenths, s.label))
        .collect();
    assert_eq!(
        strengths,
        [(480, 13, "약"), (320, 17, "중"), (192, 22, "강"), (480, 13, "약")]
    );
    assert_eq!([fps_at(0), fps_at(1), fps_at(2), fps_at(3)], [5, 10, 15, 5]);
}

#[test]
fn settings_are_saved_one_a_line() {
    let mut shared = Shared::new();
    assert_eq!(save_config(&shared), "strength=1\nfps=1\ndisplay=0\n");
    shared.strength = 2;
    shared.fps_idx = 0;
    shared.display_idx = 1234567890;
    assert_eq!(save_config(&shared), "strength=2\nfps=0\ndisplay=1234567890\n");
}

#[test]
fn saved_settings_come_back() {
    for strength in 0..3 {
        for fps_idx in 0..3 {
            for display_idx in [0, 1, 9, 10, 100, usize::MAX] {
                let mut shared = Shared::new();
                shared.strength = strength;
                shared.fps_idx = fps_idx;
                shared.display_idx = display_idx;
                assert_eq!(loaded(&save_config(&shared)), (strength, fps_idx, display_idx));
            }
        }
    }
}

#[test]
fn settings_past_the_last_are_the_last() {
    assert_eq!(loaded("strength=3\nfps=99"), (2, 2, 0));
    assert_eq!(loaded("strength=0\nfps=0\ndisplay=7"), (0, 0, 7));
}

#[test]
fn white_space_round_keys_and_values_is_ignored() {
    assert_eq!(loaded("  strength =\t2 \r\n\u{3000}fps\u{a0}= 0\r\ndisplay=\u{2003}4"), (2, 0, 4));
    assert_eq!(loaded("stre ngth=2"), (1, 1, 0));
    assert_eq!(loaded("strength=1 2"), (1, 1, 0));
}

#[test]
fn numbers_are_read_as_unsigned() {
    assert_eq!(loaded("display=+3"), (1, 1, 3));
    assert_eq!(loaded("display=007"), (1, 1, 7));
    assert_eq!(loaded("display=18446744073709551615"), (1, 1, usize::MAX));
    for bad in ["", "+", "-1", "-0", "++1", "1.0", "0x1", "1_0", "٣", "18446744073709551616"] {
        let text = format!("display=5\ndisplay={}", bad);
        assert_eq!(loaded(&text), (1, 1, 5));
    }
}

#[test]
fn lines_that_set_nothing_are_ignored() {
    assert_eq!(loaded(""), (1, 1, 0));
    assert_eq!(loaded("\n\n=\n=2\nstrength\nfps 2\nStrength=2\nspeed=2\n"), (1, 1, 0));
    assert_eq!(loaded("strength=2=1"), (1, 1, 0));
    assert_eq!(loaded("junk\nfps=2\njunk"), (1, 2, 0));
}

#[test]
fn later_lines_win() {
    assert_eq!(loaded("strength=0\nstrength=2\nstrength=x"), (2, 1, 0));
}

#[test]
fn loading_leaves_the_rest_of_the_state() {
    let mut shared = Shared::new();
    shared.status = "note".to_string();
    shared.paused = true;
    shared.generation = 8;
    load_config(&mut shared, "paused=0\nstrength=0\ngeneration=1\n");
    assert_eq!(shared.strength, 0);
    assert_eq!(shared.status, "note");
    assert!(shared.paused && !shared.rebuild && !shared.quit);
    assert_eq!(shared.generation, 8);
}

#[test]
fn white_space_is_that_of_unicode() {
    for n in 0..=0x10ffffu32 {
        if let Some(c) = char::from_u32(n) {
            assert_eq!(is_whitespace(c), c.is_whitespace());
        }
    }
}

#[test]
fn decimal_digits_are_written_in_order() {
    for n in [0, 1, 9, 10, 19, 100, 90210, usize::MAX] {
        let mut text = "n=".to_string();
        push_decimal(&mut text, n);
        assert_eq!(text, format!("n={}", n));
    }
}

#[test]
fn words_are_compared_by_character() {
    assert!(is_word("중", "중") && is_word("", ""));
    assert!(!is_word("중", "강") && !is_word("a", "ab") && !is_word("ab", "a"));
    assert!(begins_with("Blur Screen — 블러", "Blur Screen"));
    assert!(begins_with("x", "") && begins_with("x", "x"));
    assert!(!begins_with("Blur Scree", "Blur Screen") && !begins_with("A Blur Screen", "Blur Screen"));
    let chars = chars_of("a블c");
    assert_eq!(chars, ['a', '블', 'c']);
    assert!(spells(&chars, 1, 3, "블c") && !spells(&chars, 1, 3, "블"));
}
