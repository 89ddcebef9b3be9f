//! What the user's keys, the window's events, the title, the settings file and the pump's
//! events lead to, told literally.
use vstd::prelude::*;

use crate::capture::{job_result, Job};
use crate::config::{
    config_text, digits_value, is_digit, is_space, lemma_decimal, lemma_place_of,
    number, trim_end, trim_start, trimmed, unsigned_part, with_line, with_text,
};
use crate::frame::{Frame, Picture};
use crate::keys::{after_command, command_of, Key, KeyEvent};
use crate::pump::{pump_move, PumpAction, PumpEvent, PumpMove};
use crate::reduce::processing;
use crate::settings::{fps_value, strength_label, strength_sigma, strength_width};
use crate::shared::{Shared, State};
use crate::text::decimal;
use crate::title::window_title;
use crate::window::{action_of, after_event, WindowAction, WindowEvent};

verus! {

/// The state that a key leads to.
pub open spec fn after_key(state: State, event: KeyEvent) -> State {
    match command_of(event) {
        Some(command) => after_command(state, command),
        None => state,
    }
}

/// The keys 1, 2 and 3 choose the weak, the medium and the strong blur, and change nothing
/// else, whatever the state.
pub proof fn law_digits_choose_the_strength(state: State, text: String)
    ensures
        ({
            let event = KeyEvent { pressed: true, repeat: false, key: Key::Character(text) };
            &&& text@ == "1"@ ==> command_of(event) is Some && after_key(state, event) == (State {
                strength: 0,
                ..state
            })
            &&& text@ == "2"@ ==> command_of(event) is Some && after_key(state, event) == (State {
                strength: 1,
                ..state
            })
            &&& text@ == "3"@ ==> command_of(event) is Some && after_key(state, event) == (State {
                strength: 2,
                ..state
            })
        }),
{
    reveal_strlit("1");
    reveal_strlit("2");
    reveal_strlit("3");
    assert("1"@[0] != "2"@[0] && "1"@[0] != "3"@[0] && "2"@[0] != "3"@[0]);
}

/// The letters F and M, in either case, and the letters of the Korean layout on their keys
/// take the next rate and the next display, and ask for another stream; nothing else changes.
pub proof fn law_letters_take_the_next(state: State, text: String)
    requires
        state.fps_idx < usize::MAX,
        state.display_idx < usize::MAX,
    ensures
        ({
            let event = KeyEvent { pressed: true, repeat: false, key: Key::Character(text) };
            &&& text@ == "f"@ || text@ == "F"@ || text@ == "ㄹ"@ ==> command_of(event) is Some
                && after_key(state, event) == (State {
                fps_idx: ((state.fps_idx + 1) % 3) as usize,
                rebuild: true,
                ..state
            })
            &&& text@ == "m"@ || text@ == "M"@ || text@ == "ㅡ"@ ==> command_of(event) is Some
                && after_key(state, event) == (State {
                display_idx: if state.display_count == 0 {
                    0
                } else {
                    ((state.display_idx + 1) % state.display_count as int) as usize
                },
                rebuild: true,
                ..state
            })
        }),
{
    reveal_strlit("1");
    reveal_strlit("2");
    reveal_strlit("3");
    reveal_strlit("f");
    reveal_strlit("F");
    reveal_strlit("ㄹ");
    reveal_strlit("m");
    reveal_strlit("M");
    reveal_strlit("ㅡ");
    assert("1"@[0] == '1' && "2"@[0] == '2' && "3"@[0] == '3');
    assert("f"@[0] == 'f' && "F"@[0] == 'F' && "ㄹ"@[0] == 'ㄹ');
    assert("m"@[0] == 'm' && "M"@[0] == 'M' && "ㅡ"@[0] == 'ㅡ');
}

/// The space bar freezes the picture, or lets it go on; nothing else changes.
pub proof fn law_space_freezes_the_picture(state: State)
    ensures
        ({
            let event = KeyEvent { pressed: true, repeat: false, key: Key::Space };
            &&& command_of(event) is Some
            &&& after_key(state, event) == (State { paused: !state.paused, ..state })
        }),
{
}

/// Keys that go up, that are held down, or that stand for nothing change nothing, and
/// nothing is saved for them.
pub proof fn law_other_keys_do_nothing(state: State, event: KeyEvent)
    requires
        !event.pressed || event.repeat || event.key is Other || (event.key matches Key::Character(
            text,
        ) && text@ != "1"@ && text@ != "2"@ && text@ != "3"@ && text@ != "f"@ && text@ != "F"@
            && text@ != "ㄹ"@ && text@ != "m"@ && text@ != "M"@ && text@ != "ㅡ"@),
    ensures
        command_of(event) is None,
        after_key(state, event) == state,
{
}

/// What the window's events lead to: closing saves, quits and leaves; a key that stands for
/// something saves and renews the title; a new size asks for the window to be drawn again.
pub proof fn law_window_events_are_heeded(state: State, key: KeyEvent)
    ensures
        after_event(state, WindowEvent::CloseRequested) == (State { quit: true, ..state }),
        after_event(state, WindowEvent::Resized) == state,
        after_event(state, WindowEvent::RedrawRequested) == state,
        after_event(state, WindowEvent::Other) == state,
        after_event(state, WindowEvent::KeyboardInput(key)) == after_key(state, key),
        forall|has_window: bool|
            (#[trigger] action_of(has_window, WindowEvent::CloseRequested))
                == WindowAction::SaveAndExit,
        forall|has_window: bool|
            (#[trigger] action_of(has_window, WindowEvent::RedrawRequested)) == WindowAction::Draw,
        forall|has_window: bool|
            (#[trigger] action_of(has_window, WindowEvent::Other)) == WindowAction::Nothing,
        forall|has_window: bool|
            (#[trigger] action_of(has_window, WindowEvent::KeyboardInput(key))) == if command_of(
                key,
            ) is Some {
                WindowAction::SaveAndRetitle
            } else {
                WindowAction::Nothing
            },
        action_of(true, WindowEvent::Resized) == WindowAction::RequestRedraw,
        action_of(false, WindowEvent::Resized) == WindowAction::Nothing,
{
}

/// Each strength by its index, going round: how many columns are kept, how far they are
/// blurred, and its name.
pub proof fn law_strengths_by_index(i: int)
    ensures
        i % 3 == 0 ==> strength_width(i % 3) == 480 && strength_sigma(i % 3) == 13
            && strength_label(i % 3) == "약"@ && fps_value(i % 3) == 5,
        i % 3 == 1 ==> strength_width(i % 3) == 320 && strength_sigma(i % 3) == 17
            && strength_label(i % 3) == "중"@ && fps_value(i % 3) == 10,
        i % 3 == 2 ==> strength_width(i % 3) == 192 && strength_sigma(i % 3) == 22
            && strength_label(i % 3) == "강"@ && fps_value(i % 3) == 15,
{
}

/// A frame at work is reduced and blurred as its strength says.
pub proof fn law_job_is_done_at_its_strength(job: Job)
    ensures
        job.strength % 3 == 0 ==> job_result(job) == processing(job.frame, 480, 13, job.prev_hash),
        job.strength % 3 == 1 ==> job_result(job) == processing(job.frame, 320, 17, job.prev_hash),
        job.strength % 3 == 2 ==> job_result(job) == processing(job.frame, 192, 22, job.prev_hash),
{
}

/// The decimal digits of a number spell it, without a leading zero.
pub proof fn law_decimal_spells_the_number(n: nat)
    ensures
        decimal(n).len() > 0,
        forall|i: int|
            0 <= i < decimal(n).len() ==> '0' <= #[trigger] decimal(n)[i] && decimal(n)[i] <= '9',
        digits_value(decimal(n)) == n,
        n > 0 ==> decimal(n)[0] != '0',
        n == 0 ==> decimal(n) == seq!['0'],
    decreases n,
{
    lemma_decimal(n);
    assert forall|i: int| 0 <= i < decimal(n).len() implies '0' <= #[trigger] decimal(n)[i]
        && decimal(n)[i] <= '9' by {
        assert(is_digit(decimal(n)[i]));
    }
    if n >= 10 {
        law_decimal_spells_the_number(n / 10);
        assert(decimal(n)[0] == decimal(n / 10)[0]);
    }
}

/// The title without a notice: the program's name, the strength, the rate, the display where
/// there are several, counted from one, and whether the picture is frozen.
pub proof fn law_title_tells_the_settings(state: State)
    requires
        state.status.len() == 0,
    ensures
        ({
            let strength = if state.strength % 3 == 0 {
                "약"@
            } else if state.strength % 3 == 1 {
                "중"@
            } else {
                "강"@
            };
            let rate: nat = if state.fps_idx % 3 == 0 {
                5
            } else if state.fps_idx % 3 == 1 {
                10
            } else {
                15
            };
            let display = if state.display_count > 1 {
                " · 모니터 "@ + decimal((state.display_idx % state.display_count + 1) as nat) + "/"@
                    + decimal(state.display_count as nat)
            } else {
                Seq::empty()
            };
            let frozen = if state.paused {
                " · 일시정지"@
            } else {
                Seq::empty()
            };
            window_title(state) == "Blur Screen"@ + " — 블러 "@ + strength + " · "@ + decimal(rate)
                + "fps"@ + display + frozen
        }),
{
}

/// The title with a notice: the program's name and the notice, and nothing of the settings.
pub proof fn law_title_tells_the_notice(state: State)
    requires
        state.status.len() > 0,
    ensures
        window_title(state) == "Blur Screen"@ + " — "@ + state.status,
{
}

/// What a pump does on each event: it starts what was built, tells why it failed, forwards
/// frames while its stream is in force and somebody takes them, and closes the stream then.
pub proof fn law_pump_does_its_part(state: State, gen: u64, reason: String)
    ensures
        pump_move(state, gen, PumpEvent::Built) == PumpMove::StartCapture,
        pump_move(state, gen, PumpEvent::BuildFailed(reason)) == PumpMove::Fail(
            "캡처 시작 실패("@ + reason@ + ")"@,
        ),
        pump_move(state, gen, PumpEvent::BuildPanicked) == PumpMove::Fail("캡처 초기화 오류"@),
        pump_move(state, gen, PumpEvent::Started) == PumpMove::Ready,
        pump_move(state, gen, PumpEvent::StartPanicked) == PumpMove::Fail(
            "캡처 스트림을 시작하지 못했습니다"@,
        ),
        state.generation == gen && !state.quit ==> pump_move(state, gen, PumpEvent::FrameReady)
            == PumpMove::Forward,
        state.generation != gen || state.quit ==> pump_move(state, gen, PumpEvent::FrameReady)
            == PumpMove::StopCapture,
        pump_move(state, gen, PumpEvent::Sent(true)) == PumpMove::NextFrame,
        pump_move(state, gen, PumpEvent::Sent(false)) == PumpMove::StopCapture,
        pump_move(state, gen, PumpEvent::CaptureFailed) == PumpMove::StopCapture,
{
}

/// The pixels of each format: how many bytes each takes, and where its red, green and blue
/// are. A frame of packed pixels is read exactly where it has an area.
pub proof fn law_formats_are_read_as_named(p: Picture)
    ensures
        forall|frame: Frame| #[trigger]
            frame.picture() == Some(p) ==> (frame.is_readable() <==> p.width > 0 && p.height > 0),
        !Frame::YUVFrame.is_readable(),
        ({
            let (a, b) = (Frame::BGRA(p), Frame::BGRx(p));
            &&& a.picture() == Some(p)
            &&& b.picture() == Some(p)
            &&& a.layout().size == 4
            &&& b.layout().size == 4
            &&& a.layout().red == 2 && a.layout().green == 1 && a.layout().blue == 0
            &&& b.layout().red == 2 && b.layout().green == 1 && b.layout().blue == 0
        }),
        ({
            let (a, b) = (Frame::RGBx(p), Frame::XBGR(p));
            &&& a.picture() == Some(p)
            &&& b.picture() == Some(p)
            &&& a.layout().size == 4
            &&& b.layout().size == 4
            &&& a.layout().red == 0 && a.layout().green == 1 && a.layout().blue == 2
            &&& b.layout().red == 3 && b.layout().green == 2 && b.layout().blue == 1
        }),
        ({
            let (a, b) = (Frame::BGR0(p), Frame::RGB(p));
            &&& a.picture() == Some(p)
            &&& b.picture() == Some(p)
            &&& a.layout().size == 3
            &&& b.layout().size == 3
            &&& a.layout().red == 2 && a.layout().green == 1 && a.layout().blue == 0
            &&& b.layout().red == 0 && b.layout().green == 1 && b.layout().blue == 2
        }),
{
}

/// All the characters are white space.
pub open spec fn is_blank(s: Seq<char>) -> bool {
    forall|i: int| 0 <= i < s.len() ==> is_space(#[trigger] s[i])
}

/// The white space is that of Unicode: tab to carriage return, the space, the next line, and
/// the spaces and separators beyond.
pub proof fn law_white_space_is_that_of_unicode(c: char)
    ensures
        is_space(c) <==> c == '\u{9}' || c == '\u{a}' || c == '\u{b}' || c == '\u{c}' || c
            == '\u{d}' || c == '\u{20}' || c == '\u{85}' || c == '\u{a0}' || c == '\u{1680}' || (
        '\u{2000}' <= c && c <= '\u{200a}') || c == '\u{2028}' || c == '\u{2029}' || c
            == '\u{202f}' || c == '\u{205f}' || c == '\u{3000}',
{
}

proof fn lemma_trim_start(pad: Seq<char>, core: Seq<char>)
    requires
        is_blank(pad),
        core.len() > 0 ==> !is_space(core[0]),
    ensures
        trim_start(pad + core) == core,
    decreases pad.len(),
{
    let s = pad + core;
    if pad.len() > 0 {
        assert(is_space(pad[0]) && s[0] == pad[0]);
        assert(s.skip(1) =~= pad.skip(1) + core);
        lemma_trim_start(pad.skip(1), core);
    } else {
        assert(s =~= core);
    }
}

proof fn lemma_trim_end(core: Seq<char>, pad: Seq<char>)
    requires
        is_blank(pad),
        core.len() > 0 ==> !is_space(core.last()),
    ensures
        trim_end(core + pad) == core,
    decreases pad.len(),
{
    let s = core + pad;
    if pad.len() > 0 {
        assert(is_space(pad[pad.len() - 1]) && s.last() == pad.last());
        assert(s.drop_last() =~= core + pad.drop_last());
        lemma_trim_end(core, pad.drop_last());
    } else {
        assert(s =~= core);
    }
}

/// White space round a text is taken off, all of it and nothing else.
pub proof fn law_white_space_is_taken_off(before: Seq<char>, core: Seq<char>, after: Seq<char>)
    requires
        is_blank(before),
        is_blank(after),
        core.len() > 0 ==> !is_space(core[0]) && !is_space(core.last()),
    ensures
        trimmed(before + core + after) == core,
{
    if core.len() == 0 {
        let s = before + core + after;
        let none = Seq::<char>::empty();
        assert forall|i: int| 0 <= i < s.len() implies is_space(#[trigger] s[i]) by {
            if i < before.len() {
                assert(is_space(before[i]));
            } else {
                assert(is_space(after[i - before.len()]));
            }
        }
        assert(s =~= s + none);
        lemma_trim_start(s, none);
        assert(core =~= none);
    } else {
        assert(before + core + after =~= before + (core + after));
        assert((core + after)[0] == core[0]);
        lemma_trim_start(before, core + after);
        lemma_trim_end(core, after);
    }
}

/// A line of a key, `=` and the digits of a number, with a plus sign or without, and with
/// white space wherever, sets the key to the number: the strength and the rate to two at
/// most, the display to any number; other keys set nothing.
pub proof fn law_line_sets_its_key(
    state: State,
    pads: (Seq<char>, Seq<char>, Seq<char>, Seq<char>),
    key: Seq<char>,
    plus: bool,
    digits: Seq<char>,
)
    requires
        is_blank(pads.0),
        is_blank(pads.1),
        is_blank(pads.2),
        is_blank(pads.3),
        key.len() > 0 ==> !is_space(key[0]) && !is_space(key.last()),
        forall|i: int| 0 <= i < key.len() ==> key[i] != '=',
        digits.len() > 0,
        forall|i: int| 0 <= i < digits.len() ==> '0' <= #[trigger] digits[i] && digits[i] <= '9',
        digits_value(digits) <= usize::MAX,
    ensures
        ({
            let sign = if plus {
                seq!['+']
            } else {
                Seq::empty()
            };
            let line = pads.0 + key + pads.1 + seq!['='] + pads.2 + (sign + digits) + pads.3;
            let n = digits_value(digits) as usize;
            let few = if n > 2 {
                2
            } else {
                n
            };
            with_line(state, line) == if key == "strength"@ {
                State { strength: few, ..state }
            } else if key == "fps"@ {
                State { fps_idx: few, ..state }
            } else if key == "display"@ {
                State { display_idx: n, ..state }
            } else {
                state
            }
        }),
{
    let sign = if plus {
        seq!['+']
    } else {
        Seq::empty()
    };
    let left = pads.0 + key + pads.1;
    let number_text = sign + digits;
    let right = pads.2 + number_text + pads.3;
    let line = pads.0 + key + pads.1 + seq!['='] + pads.2 + number_text + pads.3;
    assert(line =~= left + seq!['='] + right);
    let e = left.len() as int;
    assert forall|i: int| 0 <= i < e implies line[i] != '=' by {
        assert(line[i] == left[i]);
        if i < pads.0.len() {
            assert(is_space(pads.0[i]));
        } else if i < pads.0.len() + key.len() {
            assert(left[i] == key[i - pads.0.len()]);
        } else {
            assert(is_space(pads.1[i - pads.0.len() - key.len()]));
        }
    }
    lemma_place_of(line, '=', e);
    assert(line.take(e) =~= left);
    assert(line.skip(e + 1) =~= right);
    law_white_space_is_taken_off(pads.0, key, pads.1);
    assert(is_digit(digits[0]) && is_digit(digits.last()));
    assert(number_text.last() == digits.last());
    law_white_space_is_taken_off(pads.2, number_text, pads.3);
    assert(unsigned_part(number_text) =~= digits);
}

/// A line without `=` sets nothing, and neither does one whose value, after the first `=`,
/// is no number: that holds anything but digits after its sign, or is too large.
pub proof fn law_other_lines_set_nothing(
    state: State,
    line: Seq<char>,
    key: Seq<char>,
    value: Seq<char>,
)
    ensures
        !line.contains('=') ==> with_line(state, line) == state,
        !key.contains('=') && number(trimmed(value)) is None ==> with_line(
            state,
            key + seq!['='] + value,
        ) == state,
        number(value) is Some ==> {
            let digits = if value[0] == '+' {
                value.skip(1)
            } else {
                value
            };
            &&& digits.len() > 0
            &&& forall|i: int|
                0 <= i < digits.len() ==> '0' <= #[trigger] digits[i] && digits[i] <= '9'
            &&& number(value) == Some(digits_value(digits) as usize)
            &&& digits_value(digits) <= usize::MAX
        },
{
    if number(value) is Some {
        let digits = unsigned_part(value);
        assert forall|i: int| 0 <= i < digits.len() implies '0' <= #[trigger] digits[i]
            && digits[i] <= '9' by {
            assert(is_digit(digits[i]));
        }
    }
    if !line.contains('=') {
        lemma_place_of(line, '=', line.len() as int);
    }
    if !key.contains('=') {
        let whole = key + seq!['='] + value;
        let e = key.len() as int;
        assert forall|i: int| 0 <= i < e implies whole[i] != '=' by {
            assert(whole[i] == key[i]);
        }
        lemma_place_of(whole, '=', e);
        assert(whole.skip(e + 1) =~= value);
    }
}

/// Digits are the ten of ASCII, and count by tens.
pub proof fn law_digits_count_by_tens(s: Seq<char>, d: char)
    ensures
        is_digit(d) <==> '0' <= d && d <= '9',
        digits_value(Seq::empty()) == 0,
        digits_value(s.push(d)) == 10 * digits_value(s) + (d as int - '0' as int),
{
    assert(s.push(d).drop_last() =~= s);
}

/// A file is read from top to bottom: reading two files one after the other is reading them
/// as one, with a line break between.
pub proof fn law_file_is_read_line_by_line(state: State, first: Seq<char>, rest: Seq<char>)
    ensures
        with_text(state, first + seq!['\n'] + rest) == with_text(with_text(state, first), rest),
        !first.contains('\n') ==> with_text(state, first) == with_line(state, first),
    decreases first.len(),
{
    let text = first + seq!['\n'] + rest;
    let n = first.len() as int;
    if exists|i: int| 0 <= i < n && first[i] == '\n' {
        let e = first_break(first);
        lemma_place_of(first, '\n', e);
        lemma_place_of(text, '\n', e);
        assert(text.take(e) =~= first.take(e));
        assert(text.skip(e + 1) =~= first.skip(e + 1) + seq!['\n'] + rest);
        law_file_is_read_line_by_line(with_line(state, first.take(e)), first.skip(e + 1), rest);
        assert(first.contains('\n'));
    } else {
        lemma_place_of(first, '\n', n);
        lemma_place_of(text, '\n', n);
        assert(text.take(n) =~= first);
        assert(text.skip(n + 1) =~= rest);
    }
}

/// Where the first line break is.
proof fn first_break(s: Seq<char>) -> (e: int)
    requires
        exists|i: int| 0 <= i < s.len() && s[i] == '\n',
    ensures
        0 <= e < s.len(),
        s[e] == '\n',
        forall|i: int| 0 <= i < e ==> s[i] != '\n',
    decreases s.len(),
{
    if s[0] == '\n' {
        0
    } else {
        let t = s.skip(1);
        let i = choose|i: int| 0 <= i < s.len() && s[i] == '\n';
        assert(t[i - 1] == '\n');
        let e = first_break(t);
        assert forall|k: int| 0 <= k < e + 1 implies s[k] != '\n' by {
            if k > 0 {
                assert(t[k - 1] != '\n');
            }
        }
        e + 1
    }
}

/// The file that is saved holds the three settings, one a line.
pub proof fn law_saved_file_holds_the_settings(state: State)
    ensures
        config_text(state) == "strength="@ + decimal(state.strength as nat) + "\nfps="@ + decimal(
            state.fps_idx as nat,
        ) + "\ndisplay="@ + decimal(state.display_idx as nat) + "\n"@,
{
}

/// The model of the shared state has its fields as they are, and those of its picture.
pub proof fn law_model_of_the_state(shared: Shared)
    ensures
        shared.frame is None ==> shared@.frame is None,
        shared.frame matches Some(tiny) ==> {
            &&& shared@.frame is Some
            &&& shared@.frame->0.w == tiny.w
            &&& shared@.frame->0.h == tiny.h
            &&& shared@.frame->0.rgb == tiny.rgb@
        },
        shared@.status == shared.status@,
        shared@.strength == shared.strength,
        shared@.fps_idx == shared.fps_idx,
        shared@.display_idx == shared.display_idx,
        shared@.display_count == shared.display_count,
        shared@.paused == shared.paused,
        shared@.rebuild == shared.rebuild,
        shared@.quit == shared.quit,
        shared@.generation == shared.generation,
{
}

/// The state at the start: medium blur, ten frames a second, the first of one display, and
/// nothing shown, told, frozen or asked for.
pub proof fn law_state_at_the_start()
    ensures
        ({
            let state = State::initial();
            &&& state.frame is None
            &&& state.status.len() == 0
            &&& state.strength == 1
            &&& state.fps_idx == 1
            &&& state.display_idx == 0
            &&& state.display_count == 1
            &&& !state.paused
            &&& !state.rebuild
            &&& !state.quit
            &&& state.generation == 0
        }),
{
}

/// The models of what a pump does next have its reasons as they are.
pub proof fn law_model_of_pump_actions(reason: String)
    ensures
        PumpAction::StartCapture@ == PumpMove::StartCapture,
        PumpAction::Fail(reason)@ == PumpMove::Fail(reason@),
        PumpAction::Ready@ == PumpMove::Ready,
        PumpAction::Forward@ == PumpMove::Forward,
        PumpAction::NextFrame@ == PumpMove::NextFrame,
        PumpAction::StopCapture@ == PumpMove::StopCapture,
{
}

} // verus!
