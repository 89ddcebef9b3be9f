//! What holds of every run of the capture loop.
use vstd::prelude::*;

use crate::capture::{
    beginning, display_places, is_own_window, is_too_soon, job_result, own_window_places,
    result_model, step_of, time_to_wait, watching, Deed, Event, Job, Move, Target, Wait, Watch,
    PERMISSION_POLLS, RECEIVE_LIMIT, STALL_LIMIT,
};
use crate::frame::Frame;
use crate::pump::is_obsolete;
use crate::reduce::Processed;
use crate::reduction_laws::law_picture_is_whole;
use crate::settings::{strength_sigma, strength_width};
use crate::shared::State;
use crate::title::{law_titles_begin_with_the_name, window_title};

verus! {

/// The time that an event tells.
pub open spec fn time_of(event: Event) -> Option<u64> {
    match event {
        Event::Started(now) => Some(now),
        Event::FrameCame { now, .. } => Some(now),
        Event::Silence(now) => Some(now),
        Event::Now(now) => Some(now),
        _ => None,
    }
}

/// No wait for a frame outlasts the limit: whatever led to it, it ends by the time at which
/// the stream under watch has been without a frame for as long as the limit.
pub proof fn law_waits_end_by_the_limit(wait: Wait, state: State, event: Event)
    ensures
        ({
            let m = step_of(wait, state, event);
            m.deed matches Deed::Receive(nanos) ==> {
                &&& m.wait matches Wait::Frames(watch)
                &&& time_of(event) matches Some(now)
                &&& 0 < nanos <= RECEIVE_LIMIT
                &&& now + nanos <= watch.last_frame + STALL_LIMIT
            }
        }),
{
}

/// However a stream dies, it is replaced within the limit: a silence, or a frame of
/// another stream, at or past the time by which every wait ends leads to a new stream, or
/// to the end where that is wanted.
pub proof fn law_stalled_stream_is_replaced(
    watch: Watch,
    state: State,
    now: u64,
    gen: u64,
    frame: Frame,
)
    requires
        now >= watch.last_frame + STALL_LIMIT,
        gen != watch.gen,
    ensures
        step_of(Wait::Frames(watch), state, Event::Silence(now)) == beginning(state),
        step_of(Wait::Frames(watch), state, Event::FrameCame { gen, frame, now }) == beginning(
            state,
        ),
        beginning(state).deed == if state.quit {
            Deed::Stop
        } else {
            Deed::ListTargets
        },
{
}

/// After a silent stream is given up, the next number is in force and its pump is started
/// as soon as a display is there.
pub proof fn law_replacement_is_the_next_stream(state: State, targets: Vec<Target>)
    requires
        display_places(targets@, targets@.len() as int).len() > 0,
    ensures
        ({
            let m = step_of(Wait::Targets, state, Event::Targets(targets));
            let next = state.generation.wrapping_add(1);
            &&& m.state.generation == next
            &&& m.deed matches Deed::StartPump { gen, .. } && gen == next
        }),
{
}

/// A quiet screen is no reason for a new stream before the limit.
pub proof fn law_quiet_stream_is_kept(watch: Watch, state: State, now: u64)
    requires
        now < watch.last_frame + STALL_LIMIT,
        !state.quit,
        !state.rebuild,
    ensures
        step_of(Wait::Frames(watch), state, Event::Silence(now)) == (Move {
            wait: Wait::Frames(watch),
            state,
            notify: false,
            deed: Deed::Receive(time_to_wait(watch, now)),
        }),
{
}

/// The number of the stream that is being started or watched, if any.
pub open spec fn stream_of(wait: Wait) -> Option<u64> {
    match wait {
        Wait::Ready { gen, .. } => Some(gen),
        Wait::Frames(watch) | Wait::Working(watch) | Wait::Clock(watch) => Some(watch.gen),
        _ => None,
    }
}

/// The number in force is that of the stream that is being started or watched.
pub open spec fn in_force(wait: Wait, state: State) -> bool {
    stream_of(wait) matches Some(gen) ==> gen == state.generation
}

/// Every step keeps the number in force that of the stream being started or watched, as it
/// is at the start.
pub proof fn law_stream_under_watch_is_in_force(wait: Wait, state: State, event: Event)
    requires
        in_force(wait, state),
    ensures
        in_force(step_of(wait, state, event).wait, step_of(wait, state, event).state),
        in_force(Wait::Support, state),
{
}

/// A new stream makes the one before it obsolete, and is not obsolete itself unless the
/// program is to quit.
pub proof fn law_new_stream_retires_the_one_before(state: State, targets: Vec<Target>)
    ensures
        step_of(Wait::Targets, state, Event::Targets(targets)).deed matches Deed::StartPump {
            gen,
            ..
        } ==> {
            let after = step_of(Wait::Targets, state, Event::Targets(targets)).state;
            &&& is_obsolete(after, state.generation)
            &&& gen == after.generation
            &&& !after.quit ==> !is_obsolete(after, gen)
        },
{
}

/// Frames of other streams change nothing, and are no sign of life of the stream under
/// watch.
pub proof fn law_stray_frame_is_ignored(
    watch: Watch,
    state: State,
    gen: u64,
    frame: Frame,
    now: u64,
)
    requires
        gen != watch.gen,
    ensures
        step_of(Wait::Frames(watch), state, Event::FrameCame { gen, frame, now }) == step_of(
            Wait::Frames(watch),
            state,
            Event::Silence(now),
        ),
{
}

/// While paused the picture is frozen: no frame is put to work, and nothing but one that
/// was at work already changes the picture.
pub proof fn law_pause_freezes_the_picture(wait: Wait, state: State, event: Event)
    requires
        state.paused,
    ensures
        step_of(wait, state, event).state.paused,
        !(step_of(wait, state, event).wait is Working),
        !(step_of(wait, state, event).deed is Process),
        !(wait is Working) ==> step_of(wait, state, event).state.frame == state.frame,
{
}

/// Frames that come sooner than the chosen rate allows are dropped.
pub proof fn law_surplus_frame_is_dropped(
    watch: Watch,
    state: State,
    gen: u64,
    frame: Frame,
    now: u64,
)
    requires
        is_too_soon(watch, now),
    ensures
        ({
            let m = step_of(Wait::Frames(watch), state, Event::FrameCame { gen, frame, now });
            &&& m.state.frame == state.frame
            &&& !(m.deed is Process)
        }),
{
}

/// A frame that is due and differs is shown: it is put to work at the strength of the
/// moment, and its picture takes the place of the one before, whatever has changed
/// meanwhile, and the window is told.
pub proof fn law_new_picture_replaces_the_one_before(
    watch: Watch,
    state: State,
    frame: Frame,
    now: u64,
    later: State,
    result: Option<Processed>,
)
    requires
        !state.paused,
        !is_too_soon(watch, now),
        result_model(result) == job_result(
            (Job { frame, strength: state.strength, prev_hash: watch.last_hash }),
        ),
    ensures
        ({
            let job = Job { frame, strength: state.strength, prev_hash: watch.last_hash };
            let m = step_of(
                Wait::Frames(watch),
                state,
                Event::FrameCame { gen: watch.gen, frame, now },
            );
            let done = step_of(m.wait, later, Event::Processed(result));
            &&& m.state == state
            &&& m.deed == Deed::Process(job)
            &&& job_result(job) matches Some((hash, Some(image))) ==> {
                &&& done.state == (State { frame: Some(image), ..later })
                &&& done.notify
                &&& done.wait == Wait::Clock(
                    Watch { last_hash: hash, last_frame: now, ..watch },
                )
            }
        }),
{
}

/// A frame that shows nothing new, or nothing at all, changes nothing that is shared, and
/// the window is not told.
pub proof fn law_unchanged_frame_is_not_told(watch: Watch, state: State, result: Option<Processed>)
    requires
        !(result_model(result) matches Some((_, Some(_)))),
    ensures
        step_of(Wait::Working(watch), state, Event::Processed(result)).state == state,
        !step_of(Wait::Working(watch), state, Event::Processed(result)).notify,
{
}

/// The picture changes by nothing but what a frame at work came to.
pub proof fn law_only_frames_change_the_picture(wait: Wait, state: State, event: Event)
    requires
        !(wait is Working && event is Processed),
    ensures
        step_of(wait, state, event).state.frame == state.frame,
{
}

/// A change of rate or display is heeded as soon as the loop goes on watching: the
/// request is taken back and a new stream begun.
pub proof fn law_rebuild_request_is_heeded(watch: Watch, state: State, now: u64)
    requires
        state.rebuild,
        !state.quit,
    ensures
        watching(watch, state, now) == beginning(State { rebuild: false, ..state }),
        watching(watch, state, now).deed == Deed::ListTargets,
        !watching(watch, state, now).state.rebuild,
        step_of(Wait::Clock(watch), state, Event::Now(now)) == beginning(
            State { rebuild: false, ..state },
        ),
        now < watch.last_frame + STALL_LIMIT ==> step_of(
            Wait::Frames(watch),
            state,
            Event::Silence(now),
        ) == beginning(State { rebuild: false, ..state }),
{
}

/// How many answers the loop still takes, at most, once the program is to quit.
pub open spec fn turns_left(wait: Wait) -> nat {
    match wait {
        Wait::Over => 0,
        Wait::Pause | Wait::Clock(_) | Wait::LastPermission | Wait::Request => 1,
        Wait::Working(_) | Wait::Ready { .. } | Wait::PollPause(_) | Wait::Permission => 2,
        Wait::Frames(_) | Wait::Targets | Wait::Poll(_) | Wait::Support => 3,
    }
}

/// Once the program is to quit the loop ends within three turns, whatever they bring:
/// each turn leaves fewer, and at none left it stops.
pub proof fn law_quitting_ends_the_loop(wait: Wait, state: State, event: Event)
    requires
        state.quit,
    ensures
        ({
            let m = step_of(wait, state, event);
            &&& m.state.quit
            &&& m.wait is Over || turns_left(m.wait) < turns_left(wait)
            &&& m.wait is Over <==> m.deed == Deed::Stop
        }),
        turns_left(wait) <= 3,
{
}

/// Permission is looked for again a fixed number of times, and no more.
pub proof fn law_permission_polls_are_bounded(state: State, k: u32)
    requires
        k < PERMISSION_POLLS,
    ensures
        step_of(Wait::PollPause(k), state, Event::Done).wait matches Wait::Poll(j) ==> j == k + 1
            && j < PERMISSION_POLLS,
{
}

/// No step takes the choices out of those offered, leaves the number of displays at
/// none, or shows a picture that lacks bytes, if results are what frames at work come to.
pub proof fn law_steps_keep_the_state_valid(wait: Wait, state: State, event: Event, job: Job)
    requires
        state.wf(),
        event matches Event::Processed(result) ==> result_model(result) == job_result(job),
    ensures
        step_of(wait, state, event).state.wf(),
{
    match (wait, event) {
        (Wait::Working(_), Event::Processed(_)) => {
            let i = job.strength as int % 3;
            law_picture_is_whole(job.frame, strength_width(i), strength_sigma(i), job.prev_hash);
        },
        (Wait::Targets, Event::Targets(targets)) => {
            assert(targets@.len() == targets.len());
            lemma_display_places(targets@, targets@.len() as int);
        },
        _ => {},
    }
}

proof fn lemma_display_places(targets: Seq<Target>, k: int)
    requires
        0 <= k <= targets.len(),
        targets.len() <= usize::MAX,
    ensures
        display_places(targets, k).len() <= k,
        forall|i: int|
            #![trigger display_places(targets, k)[i]]
            0 <= i < display_places(targets, k).len() ==> {
                let place = display_places(targets, k)[i];
                place < k && targets[place as int] is Display
            },
    decreases k,
{
    if k > 0 {
        lemma_display_places(targets, k - 1);
    }
}

proof fn lemma_own_window_places(targets: Seq<Target>, k: int, place: int)
    requires
        0 <= place < k <= targets.len(),
        targets.len() <= usize::MAX,
    ensures
        own_window_places(targets, k).contains(place as usize) <==> is_own_window(targets[place]),
    decreases k,
{
    let before = own_window_places(targets, k - 1);
    let now = own_window_places(targets, k);
    lemma_own_window_places_below(targets, k - 1);
    if place < k - 1 {
        lemma_own_window_places(targets, k - 1, place);
        if before.contains(place as usize) {
            let i = choose|i: int| 0 <= i < before.len() && before[i] == place as usize;
            assert(now[i] == place as usize);
        }
        if now.contains(place as usize) {
            let i = choose|i: int| 0 <= i < now.len() && now[i] == place as usize;
            assert(i < before.len());
            assert(before[i] == place as usize);
        }
    } else {
        if is_own_window(targets[place]) {
            assert(now[before.len() as int] == place as usize);
        } else {
            if now.contains(place as usize) {
                let i = choose|i: int| 0 <= i < now.len() && now[i] == place as usize;
                assert(before[i] < k - 1);
            }
        }
    }
}

proof fn lemma_own_window_places_below(targets: Seq<Target>, k: int)
    requires
        0 <= k <= targets.len(),
        targets.len() <= usize::MAX,
    ensures
        forall|i: int|
            0 <= i < own_window_places(targets, k).len() ==> #[trigger] own_window_places(
                targets,
                k,
            )[i] < k,
    decreases k,
{
    if k > 0 {
        lemma_own_window_places_below(targets, k - 1);
        let (before, now) = (own_window_places(targets, k - 1), own_window_places(targets, k));
        assert forall|i: int| 0 <= i < now.len() implies #[trigger] now[i] < k by {
            if i < before.len() {
                assert(now[i] == before[i]);
            }
        }
    }
}

/// A stream shows a display, and leaves out exactly this program's own windows, so that
/// the blurred window does not show itself.
pub proof fn law_stream_leaves_own_windows_out(state: State, targets: Vec<Target>, place: int)
    requires
        0 <= place < targets@.len(),
    ensures
        step_of(Wait::Targets, state, Event::Targets(targets)).deed matches Deed::StartPump {
            display,
            excluded,
            ..
        } ==> {
            &&& display < targets@.len()
            &&& targets@[display as int] is Display
            &&& excluded.contains(place as usize) <==> is_own_window(targets@[place])
        },
{
    let n = targets@.len() as int;
    assert(targets@.len() == targets.len());
    lemma_display_places(targets@, n);
    lemma_own_window_places(targets@, n, place);
    let displays = display_places(targets@, n);
    if displays.len() > 0 {
        let i = state.display_idx as int % displays.len() as int;
        assert(0 <= i < displays.len());
        assert(targets@[displays[i] as int] is Display);
    }
}

/// Whatever its title tells, the program's window is one of those left out.
pub proof fn law_own_title_is_known(state: State, title: String)
    requires
        title@ == window_title(state),
    ensures
        is_own_window(Target::Window(title)),
{
    law_titles_begin_with_the_name(state);
}

} // verus!
