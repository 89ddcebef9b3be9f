//! What the capture loop does on each event, told by the state, the event and the outcome.
use vstd::prelude::*;

use crate::capture::{
    display_places, is_own_window, own_window_places, result_model, step_of, Action, Deed, Event,
    Job, Move, Target, Wait, Watch,
};
use crate::capture_laws::law_stream_leaves_own_windows_out;
use crate::frame::Frame;
use crate::reduce::{Image, Processed};
use crate::shared::State;

verus! {

/// Where the screen cannot be captured the user is told so and the loop ends; where it can,
/// permission is looked for.
pub proof fn law_support_is_looked_for_first(state: State)
    ensures
        step_of(Wait::Support, state, Event::Support(true)) == (Move {
            wait: Wait::Permission,
            state,
            notify: false,
            deed: Deed::CheckPermission,
        }),
        step_of(Wait::Support, state, Event::Support(false)) == (Move {
            wait: Wait::Over,
            state: State {
                status: "이 환경에서는 화면 캡처가 지원되지 않습니다 (macOS 12.3+ / Windows 10 1903+ 필요)"@,
                ..state
            },
            notify: true,
            deed: Deed::Stop,
        }),
{
}

/// With permission, at first or at last, the targets are listed, unless the program is to
/// quit. Without it at first it is asked for; without it at last the loop ends.
pub proof fn law_permission_leads_to_the_targets(state: State)
    ensures
        !state.quit ==> step_of(Wait::Permission, state, Event::Permission(true)) == (Move {
            wait: Wait::Targets,
            state,
            notify: false,
            deed: Deed::ListTargets,
        }),
        !state.quit ==> step_of(Wait::LastPermission, state, Event::Permission(true)) == (Move {
            wait: Wait::Targets,
            state,
            notify: false,
            deed: Deed::ListTargets,
        }),
        state.quit ==> step_of(Wait::Permission, state, Event::Permission(true)) == (Move {
            wait: Wait::Over,
            state,
            notify: false,
            deed: Deed::Stop,
        }),
        state.quit ==> step_of(Wait::LastPermission, state, Event::Permission(true)) == (Move {
            wait: Wait::Over,
            state,
            notify: false,
            deed: Deed::Stop,
        }),
        step_of(Wait::Permission, state, Event::Permission(false)) == (Move {
            wait: Wait::Request,
            state,
            notify: false,
            deed: Deed::RequestPermission,
        }),
        step_of(Wait::LastPermission, state, Event::Permission(false)) == (Move {
            wait: Wait::Over,
            state,
            notify: false,
            deed: Deed::Stop,
        }),
{
}

/// Once permission is asked for the user is told, and it is looked for 150 times, two
/// seconds apart, unless the program is to quit, until it is there; then once more.
pub proof fn law_permission_is_waited_for(state: State, k: u32)
    requires
        k < 150,
    ensures
        ({
            let told = State {
                status: "화면 기록 권한이 필요합니다 — 시스템 설정 › 개인정보 보호 › 화면 기록에서 허용한 뒤 앱을 다시 실행해 주세요"@,
                ..state
            };
            step_of(Wait::Request, state, Event::Done) == if state.quit {
                Move { wait: Wait::Over, state: told, notify: true, deed: Deed::Stop }
            } else {
                Move { wait: Wait::Poll(0), state: told, notify: true, deed: Deed::CheckPermission }
            }
        }),
        step_of(Wait::Poll(k), state, Event::Permission(false)) == (Move {
            wait: Wait::PollPause(k),
            state,
            notify: false,
            deed: Deed::Sleep(2),
        }),
        step_of(Wait::Poll(k), state, Event::Permission(true)) == (Move {
            wait: Wait::LastPermission,
            state,
            notify: false,
            deed: Deed::CheckPermission,
        }),
        step_of(Wait::PollPause(k), state, Event::Done) == if k == 149 {
            Move { wait: Wait::LastPermission, state, notify: false, deed: Deed::CheckPermission }
        } else if state.quit {
            Move { wait: Wait::Over, state, notify: false, deed: Deed::Stop }
        } else {
            Move {
                wait: Wait::Poll((k + 1) as u32),
                state,
                notify: false,
                deed: Deed::CheckPermission,
            }
        },
{
}

/// How many of the first `k` targets are displays.
pub open spec fn displays_before(targets: Seq<Target>, k: int) -> int
    decreases k,
{
    if k <= 0 {
        0
    } else {
        displays_before(targets, k - 1) + if targets[k - 1] is Display {
            1int
        } else {
            0
        }
    }
}

proof fn lemma_displays_before(targets: Seq<Target>, k: int)
    requires
        0 <= k <= targets.len(),
        targets.len() <= usize::MAX,
    ensures
        display_places(targets, k).len() == displays_before(targets, k),
        forall|i: int|
            0 <= i < display_places(targets, k).len() ==> {
                let place = #[trigger] display_places(targets, k)[i];
                &&& place < k
                &&& targets[place as int] is Display
                &&& displays_before(targets, place as int) == i
            },
    decreases k,
{
    if k > 0 {
        lemma_displays_before(targets, k - 1);
        let (before, now) = (display_places(targets, k - 1), display_places(targets, k));
        assert forall|i: int| 0 <= i < now.len() implies {
            let place = #[trigger] now[i];
            &&& place < k
            &&& targets[place as int] is Display
            &&& displays_before(targets, place as int) == i
        } by {
            if i < before.len() {
                assert(now[i] == before[i]);
            }
        }
    }
}

/// The stream that is started shows the chosen display: the display in the list of targets
/// that has as many displays before it as the choice says, going round. It is started
/// wherever there is a display, under the next number and at the chosen rate, and nothing
/// but the numbers of displays and of the stream changes.
pub proof fn law_stream_shows_the_chosen_display(state: State, targets: Vec<Target>)
    requires
        displays_before(targets@, targets@.len() as int) > 0,
    ensures
        ({
            let m = step_of(Wait::Targets, state, Event::Targets(targets));
            let n = displays_before(targets@, targets@.len() as int);
            let next = if state.generation == u64::MAX {
                0
            } else {
                (state.generation + 1) as u64
            };
            let rate: u32 = if state.fps_idx % 3 == 0 {
                5
            } else if state.fps_idx % 3 == 1 {
                10
            } else {
                15
            };
            &&& m.deed matches Deed::StartPump { gen, fps, display, within, .. }
            &&& display < targets@.len()
            &&& targets@[display as int] is Display
            &&& displays_before(targets@, display as int) == state.display_idx as int % n
            &&& gen == next
            &&& fps == rate
            &&& within == 10
            &&& m.wait == (Wait::Ready { gen: next, fps: rate })
            &&& !m.notify
            &&& m.state == (State { display_count: n as usize, generation: next, ..state })
        }),
{
    let n = targets@.len() as int;
    assert(targets@.len() == targets.len());
    lemma_displays_before(targets@, n);
    let displays = display_places(targets@, n);
    let i = state.display_idx as int % displays.len() as int;
    assert(0 <= i < displays.len());
    let place = displays[i];
    assert(displays_before(targets@, place as int) == i);
}

/// Choices of different displays start streams of different targets.
pub proof fn law_other_choice_shows_another_display(a: State, b: State, targets: Vec<Target>)
    requires
        displays_before(targets@, targets@.len() as int) > 0,
        a.display_idx as int % displays_before(targets@, targets@.len() as int)
            != b.display_idx as int % displays_before(targets@, targets@.len() as int),
    ensures
        ({
            let ma = step_of(Wait::Targets, a, Event::Targets(targets));
            let mb = step_of(Wait::Targets, b, Event::Targets(targets));
            &&& ma.deed matches Deed::StartPump { display: da, .. }
            &&& mb.deed matches Deed::StartPump { display: db, .. }
            &&& da != db
        }),
{
    law_stream_shows_the_chosen_display(a, targets);
    law_stream_shows_the_chosen_display(b, targets);
}

/// The targets left out of a stream are the windows whose titles begin with the program's
/// name, each of them and no others.
pub proof fn law_windows_of_that_name_are_left_out(state: State, targets: Vec<Target>, place: int)
    requires
        0 <= place < targets@.len(),
    ensures
        step_of(Wait::Targets, state, Event::Targets(targets)).deed matches Deed::StartPump {
            excluded,
            ..
        } ==> (excluded.contains(place as usize) <==> (targets@[place] matches Target::Window(title)
            && "Blur Screen"@.is_prefix_of(title@))),
{
    law_stream_leaves_own_windows_out(state, targets, place);
}

/// Where there is no display the user is told, and it is tried again after a second.
pub proof fn law_missing_display_is_told(state: State, targets: Vec<Target>)
    requires
        displays_before(targets@, targets@.len() as int) == 0,
    ensures
        step_of(Wait::Targets, state, Event::Targets(targets)) == (Move {
            wait: Wait::Pause,
            state: State { status: "캡처할 디스플레이를 찾지 못했습니다 — 재시도 중"@, ..state },
            notify: true,
            deed: Deed::Sleep(1),
        }),
{
    assert(targets@.len() == targets.len());
    lemma_displays_before(targets@, targets@.len() as int);
}

/// A stream that did not start is told with its reason, and tried again after two seconds.
pub proof fn law_failed_start_is_told(state: State, gen: u64, fps: u32, reason: String)
    ensures
        step_of(Wait::Ready { gen, fps }, state, Event::StartFailed(reason)) == (Move {
            wait: Wait::Pause,
            state: State { status: reason@ + " — 재시도 중"@, ..state },
            notify: true,
            deed: Deed::Sleep(2),
        }),
        step_of(Wait::Ready { gen, fps }, state, Event::StartTimedOut) == (Move {
            wait: Wait::Pause,
            state: State { status: "캡처 시작이 지연되고 있습니다 — 재시도 중"@, ..state },
            notify: true,
            deed: Deed::Sleep(2),
        }),
        step_of(Wait::Pause, state, Event::Done) == if state.quit {
            Move { wait: Wait::Over, state, notify: false, deed: Deed::Stop }
        } else {
            Move { wait: Wait::Targets, state, notify: false, deed: Deed::ListTargets }
        },
{
}

/// A stream that runs clears the notice, and is watched from then on: with no picture yet,
/// with four fifths of the time between frames of its rate, in whole milliseconds, as the
/// least time between two pictures.
pub proof fn law_running_stream_is_watched(state: State, gen: u64, fps: u32, now: u64)
    requires
        !state.quit,
        !state.rebuild,
        fps >= 1,
    ensures
        ({
            let m = step_of(Wait::Ready { gen, fps }, state, Event::Started(now));
            &&& m.notify
            &&& m.state == (State { status: Seq::empty(), ..state })
            &&& m.deed == Deed::Receive(1_000_000_000)
            &&& m.wait matches Wait::Frames(watch)
            &&& watch.gen == gen
            &&& watch.last_frame == now
            &&& watch.last_proc is None
            &&& watch.last_hash == 0
            &&& watch.min_gap % 1_000_000 == 0
            &&& (watch.min_gap / 1_000_000) * fps <= 800
            &&& (watch.min_gap / 1_000_000 + 1) * fps > 800
        }),
{
    let q = 800int / fps as int;
    assert(q * fps <= 800 < (q + 1) * fps && 0 <= q <= 800) by (nonlinear_arith)
        requires
            q == 800int / fps as int,
            fps >= 1,
    ;
}

/// Whatever it comes to, a stream that runs clears the notice; and where the program is to
/// quit the loop ends, and where another stream was asked for that one is begun, once.
pub proof fn law_running_stream_may_be_unwanted(state: State, gen: u64, fps: u32, now: u64)
    ensures
        ({
            let m = step_of(Wait::Ready { gen, fps }, state, Event::Started(now));
            let clear = State { status: Seq::empty(), ..state };
            &&& m.notify
            &&& state.quit ==> m.deed == Deed::Stop && m.wait == Wait::Over && m.state == clear
            &&& !state.quit && state.rebuild ==> {
                &&& m.deed == Deed::ListTargets
                &&& m.wait == Wait::Targets
                &&& m.state == (State { rebuild: false, ..clear })
            }
        }),
{
}

/// A frame of the stream under watch that comes while not paused, when no frame was done
/// with before it or the least time has passed since, is put to work: that frame, at the
/// strength of the moment, against the last picture.
pub proof fn law_due_frame_is_put_to_work(watch: Watch, state: State, frame: Frame, now: u64)
    requires
        !state.paused,
        watch.last_proc is None || now >= watch.last_proc->0 + watch.min_gap,
    ensures
        step_of(
            Wait::Frames(watch),
            state,
            Event::FrameCame { gen: watch.gen, frame, now },
        ) == (Move {
            wait: Wait::Working(Watch { last_frame: now, ..watch }),
            state,
            notify: false,
            deed: Deed::Process(
                Job { frame, strength: state.strength, prev_hash: watch.last_hash },
            ),
        }),
{
}

/// A frame that comes while paused, or before the least time has passed since the last one
/// was done with, is dropped; it counts as a sign of life of its stream.
pub proof fn law_dropped_frame_is_a_sign_of_life(
    watch: Watch,
    state: State,
    frame: Frame,
    now: u64,
)
    requires
        state.paused || (watch.last_proc is Some && watch.min_gap > 0 && now
            < watch.last_proc->0 + watch.min_gap),
        !state.quit,
        !state.rebuild,
    ensures
        step_of(
            Wait::Frames(watch),
            state,
            Event::FrameCame { gen: watch.gen, frame, now },
        ) == (Move {
            wait: Wait::Frames(Watch { last_frame: now, ..watch }),
            state,
            notify: false,
            deed: Deed::Receive(1_000_000_000),
        }),
{
}

/// A silence, or a frame of another stream, before the stream has been without a frame for
/// twenty seconds changes nothing, and the next frame is waited for: for a second, or for
/// what is left of the twenty.
pub proof fn law_silence_is_borne_until_the_limit(
    watch: Watch,
    state: State,
    now: u64,
    gen: u64,
    frame: Frame,
)
    requires
        now < watch.last_frame + 20_000_000_000,
        gen != watch.gen,
        !state.quit,
        !state.rebuild,
    ensures
        ({
            let left = watch.last_frame + 20_000_000_000 - now;
            let wait = Move {
                wait: Wait::Frames(watch),
                state,
                notify: false,
                deed: Deed::Receive(
                    if left < 1_000_000_000 {
                        left as u64
                    } else {
                        1_000_000_000
                    },
                ),
            };
            &&& step_of(Wait::Frames(watch), state, Event::Silence(now)) == wait
            &&& step_of(Wait::Frames(watch), state, Event::FrameCame { gen, frame, now }) == wait
        }),
{
}

/// After twenty seconds without a frame, or when no frame can come any more, a new stream
/// is begun, or the loop ends where the program is to quit.
pub proof fn law_dead_stream_is_replaced(
    watch: Watch,
    state: State,
    now: u64,
    gen: u64,
    frame: Frame,
)
    requires
        now >= watch.last_frame + 20_000_000_000,
        gen != watch.gen,
    ensures
        ({
            let anew = if state.quit {
                Move { wait: Wait::Over, state, notify: false, deed: Deed::Stop }
            } else {
                Move { wait: Wait::Targets, state, notify: false, deed: Deed::ListTargets }
            };
            &&& step_of(Wait::Frames(watch), state, Event::Silence(now)) == anew
            &&& step_of(Wait::Frames(watch), state, Event::FrameCame { gen, frame, now }) == anew
            &&& step_of(Wait::Frames(watch), state, Event::Disconnected) == anew
        }),
{
}

/// A disconnected stream is replaced at once, however short its silence.
pub proof fn law_disconnected_stream_is_replaced(watch: Watch, state: State)
    ensures
        step_of(Wait::Frames(watch), state, Event::Disconnected) == if state.quit {
            Move { wait: Wait::Over, state, notify: false, deed: Deed::Stop }
        } else {
            Move { wait: Wait::Targets, state, notify: false, deed: Deed::ListTargets }
        },
{
}

/// What a frame at work came to is taken in: its hash is kept, a picture is shown and the
/// window told; and the clock is read.
pub proof fn law_result_is_taken_in(watch: Watch, state: State, result: Option<Processed>)
    ensures
        ({
            let m = step_of(Wait::Working(watch), state, Event::Processed(result));
            &&& m.deed == Deed::ReadClock
            &&& result is None ==> m.wait == Wait::Clock(watch) && m.state == state && !m.notify
            &&& result is Some ==> {
                let p = result->0;
                &&& m.wait == Wait::Clock(Watch { last_hash: p.hash, ..watch })
                &&& p.tiny is None ==> m.state == state && !m.notify
                &&& p.tiny is Some ==> {
                    let tiny = p.tiny->0;
                    &&& m.notify
                    &&& m.state == (State {
                        frame: Some(
                            Image { w: tiny.w as int, h: tiny.h as int, rgb: tiny.rgb@ },
                        ),
                        ..state
                    })
                }
            }
        }),
{
}

/// The time at which a frame was done with is kept, and the watch goes on: unless the
/// program is to quit, another stream is asked for, or the twenty seconds are over.
pub proof fn law_time_of_a_frame_is_kept(watch: Watch, state: State, now: u64)
    ensures
        ({
            let m = step_of(Wait::Clock(watch), state, Event::Now(now));
            &&& !m.notify
            &&& state.quit ==> m.deed == Deed::Stop && m.wait == Wait::Over && m.state == state
            &&& !state.quit && state.rebuild ==> {
                &&& m.deed == Deed::ListTargets
                &&& m.wait == Wait::Targets
                &&& m.state == (State { rebuild: false, ..state })
            }
            &&& !state.quit && !state.rebuild && now < watch.last_frame + 20_000_000_000 ==> {
                &&& m.wait == Wait::Frames(Watch { last_proc: Some(now), ..watch })
                &&& m.state == state
                &&& m.deed == Deed::Receive(
                    if now + 1_000_000_000 > watch.last_frame + 20_000_000_000 {
                        (watch.last_frame + 20_000_000_000 - now) as u64
                    } else {
                        1_000_000_000
                    },
                )
            }
            &&& !state.quit && !state.rebuild && now >= watch.last_frame + 20_000_000_000 ==> {
                &&& m.wait == Wait::Targets
                &&& m.state == state
                &&& m.deed == Deed::ListTargets
            }
        }),
{
}

/// While frames of the stream come, a request for another stream is heeded and taken back,
/// and the end of the program is heeded, with the next frame that is not put to work.
pub proof fn law_requests_are_heeded_between_frames(
    watch: Watch,
    state: State,
    frame: Frame,
    now: u64,
)
    requires
        state.paused || (watch.last_proc is Some && watch.min_gap > 0 && now
            < watch.last_proc->0 + watch.min_gap),
        state.quit || state.rebuild,
    ensures
        step_of(
            Wait::Frames(watch),
            state,
            Event::FrameCame { gen: watch.gen, frame, now },
        ) == if state.quit {
            Move { wait: Wait::Over, state, notify: false, deed: Deed::Stop }
        } else {
            Move {
                wait: Wait::Targets,
                state: State { rebuild: false, ..state },
                notify: false,
                deed: Deed::ListTargets,
            }
        },
{
}

/// The loop leaves the user's choices alone: no step changes the strength, the rate, the
/// display, the pause or the end; the numbers of displays and of the stream change only when
/// targets are listed; and a request for another stream is never made by the loop.
pub proof fn law_steps_leave_the_choices(wait: Wait, state: State, event: Event)
    ensures
        ({
            let after = step_of(wait, state, event).state;
            &&& after.strength == state.strength
            &&& after.fps_idx == state.fps_idx
            &&& after.display_idx == state.display_idx
            &&& after.paused == state.paused
            &&& after.quit == state.quit
            &&& after.rebuild ==> state.rebuild
            &&& !(wait is Targets) ==> after.display_count == state.display_count
                && after.generation == state.generation
        }),
{
}

/// Between one picture and the next, the least time passes: once a frame was done with, the
/// next to be put to work comes no sooner.
pub proof fn law_pictures_are_spaced(
    watch: Watch,
    state: State,
    then: u64,
    later: State,
    gen: u64,
    frame: Frame,
    now: u64,
)
    requires
        watch.min_gap > 0,
    ensures
        ({
            let m = step_of(Wait::Clock(watch), state, Event::Now(then));
            m.wait is Frames ==> (step_of(
                m.wait,
                later,
                Event::FrameCame { gen, frame, now },
            ).deed is Process ==> {
                &&& now >= then + watch.min_gap
                &&& gen == watch.gen
                &&& !later.paused
            })
        }),
{
}

/// In a silence, and between frames of other streams, the end of the program and a request
/// for another stream are heeded, the request being taken back.
pub proof fn law_requests_are_heeded_in_silence(
    watch: Watch,
    state: State,
    now: u64,
    gen: u64,
    frame: Frame,
)
    requires
        now < watch.last_frame + 20_000_000_000,
        gen != watch.gen,
        state.quit || state.rebuild,
    ensures
        ({
            let heeded = if state.quit {
                Move { wait: Wait::Over, state, notify: false, deed: Deed::Stop }
            } else {
                Move {
                    wait: Wait::Targets,
                    state: State { rebuild: false, ..state },
                    notify: false,
                    deed: Deed::ListTargets,
                }
            };
            &&& step_of(Wait::Frames(watch), state, Event::Silence(now)) == heeded
            &&& step_of(Wait::Frames(watch), state, Event::FrameCame { gen, frame, now }) == heeded
        }),
{
}

/// An event that answers nothing that was asked for ends the loop, and changes nothing.
pub proof fn law_loop_that_is_over_stays_over(state: State, event: Event)
    ensures
        step_of(Wait::Over, state, event) == (Move {
            wait: Wait::Over,
            state,
            notify: false,
            deed: Deed::Stop,
        }),
{
}

/// The list of displays names every display of the targets, in order, and nothing else: its
/// entry `i` is the display that has `i` displays before it.
pub proof fn law_displays_are_listed_in_order(targets: Seq<Target>, i: int)
    requires
        targets.len() <= usize::MAX,
        0 <= i < displays_before(targets, targets.len() as int),
    ensures
        ({
            let list = display_places(targets, targets.len() as int);
            &&& list.len() == displays_before(targets, targets.len() as int)
            &&& list[i] < targets.len()
            &&& targets[list[i] as int] is Display
            &&& displays_before(targets, list[i] as int) == i
        }),
{
    lemma_displays_before(targets, targets.len() as int);
    let place = display_places(targets, targets.len() as int)[i];
}

proof fn lemma_own_windows(targets: Seq<Target>, k: int)
    requires
        0 <= k <= targets.len(),
        targets.len() <= usize::MAX,
    ensures
        forall|i: int|
            0 <= i < own_window_places(targets, k).len() ==> {
                let place = #[trigger] own_window_places(targets, k)[i];
                &&& place < k
                &&& is_own_window(targets[place as int])
            },
        forall|i: int, j: int|
            0 <= i < j < own_window_places(targets, k).len() ==> #[trigger] own_window_places(
                targets,
                k,
            )[i] < #[trigger] own_window_places(targets, k)[j],
    decreases k,
{
    if k > 0 {
        lemma_own_windows(targets, k - 1);
        let (before, now) = (own_window_places(targets, k - 1), own_window_places(targets, k));
        assert forall|i: int| 0 <= i < now.len() implies {
            let place = #[trigger] now[i];
            &&& place < k
            &&& is_own_window(targets[place as int])
        } by {
            if i < before.len() {
                assert(now[i] == before[i]);
            }
        }
        assert forall|i: int, j: int| 0 <= i < j < now.len() implies #[trigger] now[i]
            < #[trigger] now[j] by {
            assert(now[i] == before[i]);
            if j < before.len() {
                assert(now[j] == before[j]);
            }
        }
    }
}

/// The list of own windows names windows whose titles begin with the program's name, each
/// once and in order.
pub proof fn law_own_windows_are_listed_in_order(targets: Seq<Target>, i: int, j: int)
    requires
        targets.len() <= usize::MAX,
        0 <= i < j < own_window_places(targets, targets.len() as int).len(),
    ensures
        ({
            let list = own_window_places(targets, targets.len() as int);
            &&& list[i] < list[j] < targets.len()
            &&& targets[list[i] as int] matches Target::Window(title)
            &&& "Blur Screen"@.is_prefix_of(title@)
        }),
{
    lemma_own_windows(targets, targets.len() as int);
    let list = own_window_places(targets, targets.len() as int);
    assert(list[i] < list[j]);
    assert(is_own_window(targets[list[i] as int]));
}

/// The models of what is to be done next have its numbers as they are.
pub proof fn law_model_of_actions(
    secs: u64,
    gen: u64,
    fps: u32,
    display: usize,
    excluded: Vec<usize>,
    job: Job,
)
    ensures
        Action::CheckSupport@ == Deed::CheckSupport,
        Action::CheckPermission@ == Deed::CheckPermission,
        Action::RequestPermission@ == Deed::RequestPermission,
        Action::Sleep(secs)@ == Deed::Sleep(secs),
        Action::ListTargets@ == Deed::ListTargets,
        (Action::StartPump { gen, fps, display, excluded, within: secs })@ == (Deed::StartPump {
            gen,
            fps,
            display,
            excluded: excluded@,
            within: secs,
        }),
        Action::Receive(secs)@ == Deed::Receive(secs),
        Action::Process(job)@ == Deed::Process(job),
        Action::ReadClock@ == Deed::ReadClock,
        Action::Stop@ == Deed::Stop,
{
}

/// The model of what a frame came to has its hash and its picture as they are.
pub proof fn law_model_of_results(processed: Processed)
    ensures
        result_model(None) is None,
        ({
            let model = result_model(Some(processed))->0;
            &&& result_model(Some(processed)) is Some
            &&& model.0 == processed.hash
            &&& processed.tiny is None ==> model.1 is None
            &&& processed.tiny matches Some(tiny) ==> {
                &&& model.1 is Some
                &&& model.1->0.w == tiny.w
                &&& model.1->0.h == tiny.h
                &&& model.1->0.rgb == tiny.rgb@
            }
        }),
{
}

} // verus!
