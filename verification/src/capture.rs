//! The capture loop: it starts streams, watches over them, and turns their frames into
//! pictures. It says what is to be done next and is told what came of it.
use vstd::prelude::*;
use vstd::string::StringExecFns;

use crate::frame::Frame;
use crate::reduce::{process_frame, processing, Image, Processed};
use crate::settings::{
    fps_at, fps_value, strength_at, strength_sigma, strength_width, WINDOW_TITLE,
};
use crate::shared::{frame_model, Shared, State};
use crate::text::begins_with;

verus! {

/// How often permission to record the screen is looked for again.
pub const PERMISSION_POLLS: u32 = 150;

/// A stream without a frame for this long, in nanoseconds, is replaced.
pub const STALL_LIMIT: u64 = 20_000_000_000;

/// How long a stream may take to start, in seconds.
pub const START_LIMIT: u64 = 10;

/// How long a frame is waited for at a time, in nanoseconds.
pub const RECEIVE_LIMIT: u64 = 1_000_000_000;

/// Something that can be captured.
pub enum Target {
    Display,
    /// A window, by its title.
    Window(String),
}

/// A stream under watch. Times are in nanoseconds.
#[derive(Clone, Copy)]
pub struct Watch {
    /// The number of the stream.
    pub gen: u64,
    /// The least time between two pictures.
    pub min_gap: u64,
    /// The hash of the last picture.
    pub last_hash: u64,
    /// When the last frame was done with.
    pub last_proc: Option<u64>,
    /// When the last frame came.
    pub last_frame: u64,
}

/// What the loop waits for.
#[derive(Clone, Copy)]
pub enum Wait {
    Support,
    Permission,
    Request,
    /// Permission, looked for again after so many times.
    Poll(u32),
    PollPause(u32),
    LastPermission,
    Targets,
    Ready { gen: u64, fps: u32 },
    Pause,
    Frames(Watch),
    /// What the frame at work comes to.
    Working(Watch),
    Clock(Watch),
    Over,
}

/// A frame to be turned into a picture, at the blur strength of index `strength`.
pub struct Job {
    pub frame: Frame,
    pub strength: usize,
    /// The hash of the last picture.
    pub prev_hash: u64,
}

/// What came of what was to be done.
pub enum Event {
    /// Whether the screen can be captured here at all.
    Support(bool),
    /// Whether the screen may be captured.
    Permission(bool),
    /// It is done.
    Done,
    Targets(Vec<Target>),
    /// The stream runs since this time.
    Started(u64),
    /// The stream did not start, for the given reason.
    StartFailed(String),
    StartTimedOut,
    /// A frame of stream `gen` came at the time `now`.
    FrameCame { gen: u64, frame: Frame, now: u64 },
    /// No frame came for a while; it is now this time.
    Silence(u64),
    /// No frame can come any more.
    Disconnected,
    /// What the frame at work came to.
    Processed(Option<Processed>),
    /// It is now this time.
    Now(u64),
}

/// What is to be done next.
pub enum Action {
    CheckSupport,
    CheckPermission,
    RequestPermission,
    /// Wait for so many seconds.
    Sleep(u64),
    ListTargets,
    /// Start stream `gen` of the target `display`, at `fps` frames a second and without
    /// the targets `excluded`; both are places in the list of targets. Wait for it to run,
    /// for `within` seconds at most.
    StartPump { gen: u64, fps: u32, display: usize, excluded: Vec<usize>, within: u64 },
    /// Wait for a frame, for so many nanoseconds at most.
    Receive(u64),
    /// Turn a frame into a picture. Nothing shared is needed for it.
    Process(Job),
    ReadClock,
    Stop,
}

/// What is to be done next, and whether the window is to be told of a change first.
pub struct Outcome {
    pub notify: bool,
    pub action: Action,
}

/// The model of what is to be done next.
#[verifier::ext_equal]
pub enum Deed {
    CheckSupport,
    CheckPermission,
    RequestPermission,
    Sleep(u64),
    ListTargets,
    StartPump { gen: u64, fps: u32, display: usize, excluded: Seq<usize>, within: u64 },
    Receive(u64),
    Process(Job),
    ReadClock,
    Stop,
}

impl View for Action {
    type V = Deed;

    open spec fn view(&self) -> Deed {
        match *self {
            Action::CheckSupport => Deed::CheckSupport,
            Action::CheckPermission => Deed::CheckPermission,
            Action::RequestPermission => Deed::RequestPermission,
            Action::Sleep(secs) => Deed::Sleep(secs),
            Action::ListTargets => Deed::ListTargets,
            Action::StartPump { gen, fps, display, excluded, within } => Deed::StartPump {
                gen,
                fps,
                display,
                excluded: excluded@,
                within,
            },
            Action::Receive(nanos) => Deed::Receive(nanos),
            Action::Process(job) => Deed::Process(job),
            Action::ReadClock => Deed::ReadClock,
            Action::Stop => Deed::Stop,
        }
    }
}

/// A step of the loop: what it waits for then, the shared state, and what is to be done.
pub struct Move {
    pub wait: Wait,
    pub state: State,
    pub notify: bool,
    pub deed: Deed,
}

/// The places of the displays among the first `k` targets.
pub open spec fn display_places(targets: Seq<Target>, k: int) -> Seq<usize>
    decreases k,
{
    if k <= 0 {
        Seq::empty()
    } else if targets[k - 1] is Display {
        display_places(targets, k - 1).push((k - 1) as usize)
    } else {
        display_places(targets, k - 1)
    }
}

/// A window of this program: its title begins with the program's.
pub open spec fn is_own_window(target: Target) -> bool {
    target matches Target::Window(title) && WINDOW_TITLE@.is_prefix_of(title@)
}

/// The places of this program's windows among the first `k` targets.
pub open spec fn own_window_places(targets: Seq<Target>, k: int) -> Seq<usize>
    decreases k,
{
    if k <= 0 {
        Seq::empty()
    } else if is_own_window(targets[k - 1]) {
        own_window_places(targets, k - 1).push((k - 1) as usize)
    } else {
        own_window_places(targets, k - 1)
    }
}

/// The least time between two pictures, in nanoseconds, at `fps` frames a second.
pub open spec fn gap_at(fps: u32) -> u64 {
    let per = if fps < 1 {
        1
    } else {
        fps
    };
    (800int / per as int * 1_000_000) as u64
}

/// The time from `then` to `now`; none where the clock seems to have gone back.
pub open spec fn elapsed(now: u64, then: u64) -> int {
    if now > then {
        now - then
    } else {
        0
    }
}

/// A step that changes nothing shared.
pub open spec fn quietly(wait: Wait, state: State, deed: Deed) -> Move {
    Move { wait, state, notify: false, deed }
}

/// A step that tells the user something.
pub open spec fn telling(wait: Wait, state: State, status: Seq<char>, deed: Deed) -> Move {
    Move { wait, state: State { status, ..state }, notify: true, deed }
}

/// The end of the loop.
pub open spec fn stopping(state: State) -> Move {
    quietly(Wait::Over, state, Deed::Stop)
}

/// The beginning of a stream, unless the program is to quit.
pub open spec fn beginning(state: State) -> Move {
    if state.quit {
        stopping(state)
    } else {
        quietly(Wait::Targets, state, Deed::ListTargets)
    }
}

/// Looking for permission again, after `k` times.
pub open spec fn polling(state: State, k: u32) -> Move {
    if k >= PERMISSION_POLLS {
        quietly(Wait::LastPermission, state, Deed::CheckPermission)
    } else if state.quit {
        stopping(state)
    } else {
        quietly(Wait::Poll(k), state, Deed::CheckPermission)
    }
}

/// No frame of the stream has come for as long as the limit.
pub open spec fn is_stalled(watch: Watch, now: u64) -> bool {
    elapsed(now, watch.last_frame) >= STALL_LIMIT
}

/// How long the next frame is waited for: no longer than the stream has left.
pub open spec fn time_to_wait(watch: Watch, now: u64) -> u64 {
    let left = STALL_LIMIT - elapsed(now, watch.last_frame);
    if left < RECEIVE_LIMIT {
        left as u64
    } else {
        RECEIVE_LIMIT
    }
}

/// Going on with the watch over a stream at the time `now`, unless the program is to quit,
/// the stream is to be built anew, or it is stalled.
pub open spec fn watching(watch: Watch, state: State, now: u64) -> Move {
    if state.quit {
        stopping(state)
    } else if state.rebuild {
        beginning(State { rebuild: false, ..state })
    } else if is_stalled(watch, now) {
        beginning(state)
    } else {
        quietly(Wait::Frames(watch), state, Deed::Receive(time_to_wait(watch, now)))
    }
}

/// Going on with the watch when no frame of the stream came: a stalled stream is given up.
pub open spec fn missing(watch: Watch, state: State, now: u64) -> Move {
    if is_stalled(watch, now) {
        beginning(state)
    } else {
        watching(watch, state, now)
    }
}

/// Starting a stream of the chosen display.
pub open spec fn starting(state: State, targets: Seq<Target>) -> Move {
    let displays = display_places(targets, targets.len() as int);
    if displays.len() == 0 {
        telling(
            Wait::Pause,
            state,
            "캡처할 디스플레이를 찾지 못했습니다 — 재시도 중"@,
            Deed::Sleep(1),
        )
    } else {
        let gen = state.generation.wrapping_add(1);
        let fps = fps_value(state.fps_idx as int % 3);
        quietly(
            Wait::Ready { gen, fps },
            State { display_count: displays.len() as usize, generation: gen, ..state },
            Deed::StartPump {
                gen,
                fps,
                display: displays[state.display_idx as int % displays.len() as int],
                excluded: own_window_places(targets, targets.len() as int),
                within: START_LIMIT,
            },
        )
    }
}

/// The frame comes too soon after the last one that was shown.
pub open spec fn is_too_soon(watch: Watch, now: u64) -> bool {
    watch.last_proc matches Some(then) && elapsed(now, then) < watch.min_gap
}

/// Taking a frame in: frames of other streams, frames while paused and frames that come
/// too soon are dropped, the others are put to work at the strength of the moment.
pub open spec fn taking(watch: Watch, state: State, gen: u64, frame: Frame, now: u64) -> Move {
    let seen = Watch { last_frame: now, ..watch };
    if gen != watch.gen {
        missing(watch, state, now)
    } else if state.paused || is_too_soon(watch, now) {
        watching(seen, state, now)
    } else {
        let job = Job { frame, strength: state.strength, prev_hash: watch.last_hash };
        quietly(Wait::Working(seen), state, Deed::Process(job))
    }
}

/// What a frame at work comes to: the hash of its reduced picture and, unless that is the
/// last picture's, the picture.
pub open spec fn job_result(job: Job) -> Option<(u64, Option<Image>)> {
    let i = job.strength as int % 3;
    processing(job.frame, strength_width(i), strength_sigma(i), job.prev_hash)
}

/// The model of what a frame came to.
pub open spec fn result_model(result: Option<Processed>) -> Option<(u64, Option<Image>)> {
    match result {
        Some(processed) => Some((processed.hash, frame_model(processed.tiny))),
        None => None,
    }
}

/// Taking the result of a frame in: a picture becomes the one to show.
pub open spec fn publishing(
    watch: Watch,
    state: State,
    result: Option<(u64, Option<Image>)>,
) -> Move {
    match result {
        None => quietly(Wait::Clock(watch), state, Deed::ReadClock),
        Some((hash, None)) => quietly(
            Wait::Clock(Watch { last_hash: hash, ..watch }),
            state,
            Deed::ReadClock,
        ),
        Some((hash, Some(image))) => Move {
            wait: Wait::Clock(Watch { last_hash: hash, ..watch }),
            state: State { frame: Some(image), ..state },
            notify: true,
            deed: Deed::ReadClock,
        },
    }
}

/// The step that an event leads to. An event that is no answer to what was to be done
/// ends the loop.
pub open spec fn step_of(wait: Wait, state: State, event: Event) -> Move {
    match (wait, event) {
        (Wait::Support, Event::Support(supported)) => if supported {
            quietly(Wait::Permission, state, Deed::CheckPermission)
        } else {
            telling(
                Wait::Over,
                state,
                "이 환경에서는 화면 캡처가 지원되지 않습니다 (macOS 12.3+ / Windows 10 1903+ 필요)"@,
                Deed::Stop,
            )
        },
        (Wait::Permission, Event::Permission(granted)) => if granted {
            beginning(state)
        } else {
            quietly(Wait::Request, state, Deed::RequestPermission)
        },
        (Wait::Request, Event::Done) => {
            let asked = polling(
                State {
                    status: "화면 기록 권한이 필요합니다 — 시스템 설정 › 개인정보 보호 › 화면 기록에서 허용한 뒤 앱을 다시 실행해 주세요"@,
                    ..state
                },
                0,
            );
            Move { notify: true, ..asked }
        },
        (Wait::Poll(k), Event::Permission(granted)) => if granted {
            quietly(Wait::LastPermission, state, Deed::CheckPermission)
        } else {
            quietly(Wait::PollPause(k), state, Deed::Sleep(2))
        },
        (Wait::PollPause(k), Event::Done) => polling(state, k.wrapping_add(1)),
        (Wait::LastPermission, Event::Permission(granted)) => if granted {
            beginning(state)
        } else {
            stopping(state)
        },
        (Wait::Targets, Event::Targets(targets)) => starting(state, targets@),
        (Wait::Ready { gen, fps }, Event::Started(now)) => {
            let watch = Watch {
                gen,
                min_gap: gap_at(fps),
                last_hash: 0,
                last_proc: None,
                last_frame: now,
            };
            Move { notify: true, ..watching(watch, State { status: Seq::empty(), ..state }, now) }
        },
        (Wait::Ready { gen, fps }, Event::StartFailed(reason)) => telling(
            Wait::Pause,
            state,
            reason@ + " — 재시도 중"@,
            Deed::Sleep(2),
        ),
        (Wait::Ready { gen, fps }, Event::StartTimedOut) => telling(
            Wait::Pause,
            state,
            "캡처 시작이 지연되고 있습니다 — 재시도 중"@,
            Deed::Sleep(2),
        ),
        (Wait::Pause, Event::Done) => beginning(state),
        (Wait::Frames(watch), Event::FrameCame { gen, frame, now }) => taking(
            watch,
            state,
            gen,
            frame,
            now,
        ),
        (Wait::Frames(watch), Event::Silence(now)) => missing(watch, state, now),
        (Wait::Frames(watch), Event::Disconnected) => beginning(state),
        (Wait::Working(watch), Event::Processed(result)) => publishing(
            watch,
            state,
            result_model(result),
        ),
        (Wait::Clock(watch), Event::Now(now)) => watching(
            Watch { last_proc: Some(now), ..watch },
            state,
            now,
        ),
        _ => stopping(state),
    }
}

/// The capture loop.
pub struct Capture {
    pub wait: Wait,
}

/// The exec step `(wait, outcome)` does what the model says.
spec fn matches_move(wait: Wait, outcome: Outcome, shared: Shared, m: Move) -> bool {
    &&& wait == m.wait
    &&& shared@ == m.state
    &&& outcome.notify == m.notify
    &&& outcome.action@ == m.deed
}

fn stop() -> (step: (Wait, Outcome))
    ensures
        step.0 == Wait::Over,
        !step.1.notify,
        step.1.action@ == Deed::Stop,
{
    (Wait::Over, Outcome { notify: false, action: Action::Stop })
}

fn tell(shared: &mut Shared, status: String)
    ensures
        final(shared)@ == (State { status: status@, ..old(shared)@ }),
{
    shared.status = status;
}

fn begin(shared: &Shared) -> (step: (Wait, Outcome))
    ensures
        matches_move(step.0, step.1, *shared, beginning(shared@)),
{
    if shared.quit {
        stop()
    } else {
        (Wait::Targets, Outcome { notify: false, action: Action::ListTargets })
    }
}

fn poll(shared: &Shared, k: u32) -> (step: (Wait, Outcome))
    ensures
        matches_move(step.0, step.1, *shared, polling(shared@, k)),
{
    if k >= PERMISSION_POLLS {
        (Wait::LastPermission, Outcome { notify: false, action: Action::CheckPermission })
    } else if shared.quit {
        stop()
    } else {
        (Wait::Poll(k), Outcome { notify: false, action: Action::CheckPermission })
    }
}

fn time_between(now: u64, then: u64) -> (t: u64)
    ensures
        t == elapsed(now, then),
{
    if now > then { now - then } else { 0 }
}

fn watch_on(shared: &mut Shared, watch: Watch, now: u64) -> (step: (Wait, Outcome))
    ensures
        matches_move(step.0, step.1, *final(shared), watching(watch, old(shared)@, now)),
{
    let quiet: u64 = time_between(now, watch.last_frame);
    if shared.quit {
        stop()
    } else if shared.rebuild {
        shared.rebuild = false;
        begin(shared)
    } else if quiet >= STALL_LIMIT {
        begin(shared)
    } else {
        let left: u64 = STALL_LIMIT - quiet;
        let nanos: u64 = if left < RECEIVE_LIMIT { left } else { RECEIVE_LIMIT };
        (Wait::Frames(watch), Outcome { notify: false, action: Action::Receive(nanos) })
    }
}

fn miss(shared: &mut Shared, watch: Watch, now: u64) -> (step: (Wait, Outcome))
    ensures
        matches_move(step.0, step.1, *final(shared), missing(watch, old(shared)@, now)),
{
    if time_between(now, watch.last_frame) >= STALL_LIMIT {
        begin(shared)
    } else {
        watch_on(shared, watch, now)
    }
}

/// The places of the displays and of this program's windows in the list of targets.
pub fn find_targets(targets: &Vec<Target>) -> (places: (Vec<usize>, Vec<usize>))
    ensures
        places.0@ == display_places(targets@, targets.len() as int),
        places.1@ == own_window_places(targets@, targets.len() as int),
{
    let mut displays: Vec<usize> = Vec::new();
    let mut own: Vec<usize> = Vec::new();
    let n: usize = targets.len();
    let mut i: usize = 0;
    while i < n
        invariant
            i <= n,
            n == targets.len(),
            displays@ == display_places(targets@, i as int),
            own@ == own_window_places(targets@, i as int),
        decreases n - i,
    {
        match &targets[i] {
            Target::Display => {
                displays.push(i);
            },
            Target::Window(title) => {
                if begins_with(title.as_str(), WINDOW_TITLE) {
                    own.push(i);
                }
            },
        }
        i = i + 1;
    }
    (displays, own)
}

fn start(shared: &mut Shared, targets: &Vec<Target>) -> (step: (Wait, Outcome))
    ensures
        matches_move(step.0, step.1, *final(shared), starting(old(shared)@, targets@)),
{
    let (displays, excluded): (Vec<usize>, Vec<usize>) = find_targets(targets);
    let n: usize = displays.len();
    if n == 0 {
        tell(
            shared,
            "캡처할 디스플레이를 찾지 못했습니다 — 재시도 중".to_owned(),
        );
        return (Wait::Pause, Outcome { notify: true, action: Action::Sleep(1) });
    }
    shared.display_count = n;
    let display: usize = displays[shared.display_idx % n];
    let fps: u32 = fps_at(shared.fps_idx);
    let gen: u64 = shared.generation.wrapping_add(1);
    shared.generation = gen;
    (
        Wait::Ready { gen, fps },
        Outcome {
            notify: false,
            action: Action::StartPump { gen, fps, display, excluded, within: START_LIMIT },
        },
    )
}

fn take(shared: &mut Shared, watch: Watch, gen: u64, frame: Frame, now: u64) -> (step: (
    Wait,
    Outcome,
))
    ensures
        matches_move(
            step.0,
            step.1,
            *final(shared),
            taking(watch, old(shared)@, gen, frame, now),
        ),
{
    if gen != watch.gen {
        return miss(shared, watch, now);
    }
    let mut seen: Watch = watch;
    seen.last_frame = now;
    if shared.paused {
        return watch_on(shared, seen, now);
    }
    if let Some(then) = watch.last_proc {
        if time_between(now, then) < watch.min_gap {
            return watch_on(shared, seen, now);
        }
    }
    let job = Job { frame, strength: shared.strength, prev_hash: watch.last_hash };
    (Wait::Working(seen), Outcome { notify: false, action: Action::Process(job) })
}

fn publish(shared: &mut Shared, watch: Watch, result: Option<Processed>) -> (step: (Wait, Outcome))
    ensures
        matches_move(
            step.0,
            step.1,
            *final(shared),
            publishing(watch, old(shared)@, result_model(result)),
        ),
{
    let mut done: Watch = watch;
    match result {
        None => (Wait::Clock(done), Outcome { notify: false, action: Action::ReadClock }),
        Some(processed) => {
            done.last_hash = processed.hash;
            match processed.tiny {
                None => (Wait::Clock(done), Outcome { notify: false, action: Action::ReadClock }),
                Some(tiny) => {
                    shared.frame = Some(tiny);
                    (Wait::Clock(done), Outcome { notify: true, action: Action::ReadClock })
                },
            }
        },
    }
}

impl Job {
    /// Turns the frame into a picture.
    pub fn run(&self) -> (event: Event)
        ensures
            event matches Event::Processed(result) && result_model(result) == job_result(*self),
    {
        let strength = strength_at(self.strength);
        Event::Processed(
            process_frame(&self.frame, strength.target_w, strength.sigma_tenths, self.prev_hash),
        )
    }
}

impl Capture {
    /// The loop at its start, when it is to be found out whether the screen can be
    /// captured at all.
    pub fn new() -> (begun: (Capture, Action))
        ensures
            begun.0.wait == Wait::Support,
            begun.1@ == Deed::CheckSupport,
    {
        (Capture { wait: Wait::Support }, Action::CheckSupport)
    }

    /// Takes what came of the last action, and says what is to be done next.
    pub fn step(&mut self, shared: &mut Shared, event: Event) -> (outcome: Outcome)
        ensures
            ({
                let m = step_of(old(self).wait, old(shared)@, event);
                &&& final(self).wait == m.wait
                &&& final(shared)@ == m.state
                &&& outcome.notify == m.notify
                &&& outcome.action@ == m.deed
            }),
    {
        let (wait, outcome): (Wait, Outcome) = match (self.wait, event) {
            (Wait::Support, Event::Support(supported)) => if supported {
                (Wait::Permission, Outcome { notify: false, action: Action::CheckPermission })
            } else {
                tell(
                    shared,
                    "이 환경에서는 화면 캡처가 지원되지 않습니다 (macOS 12.3+ / Windows 10 1903+ 필요)".to_owned(),
                );
                (Wait::Over, Outcome { notify: true, action: Action::Stop })
            },
            (Wait::Permission, Event::Permission(granted)) => if granted {
                begin(shared)
            } else {
                (Wait::Request, Outcome { notify: false, action: Action::RequestPermission })
            },
            (Wait::Request, Event::Done) => {
                tell(
                    shared,
                    "화면 기록 권한이 필요합니다 — 시스템 설정 › 개인정보 보호 › 화면 기록에서 허용한 뒤 앱을 다시 실행해 주세요".to_owned(),
                );
                let (wait, outcome): (Wait, Outcome) = poll(shared, 0);
                (wait, Outcome { notify: true, action: outcome.action })
            },
            (Wait::Poll(k), Event::Permission(granted)) => if granted {
                (Wait::LastPermission, Outcome { notify: false, action: Action::CheckPermission })
            } else {
                (Wait::PollPause(k), Outcome { notify: false, action: Action::Sleep(2) })
            },
            (Wait::PollPause(k), Event::Done) => poll(shared, k.wrapping_add(1)),
            (Wait::LastPermission, Event::Permission(granted)) => if granted {
                begin(shared)
            } else {
                stop()
            },
            (Wait::Targets, Event::Targets(targets)) => start(shared, &targets),
            (Wait::Ready { gen, fps }, Event::Started(now)) => {
                tell(shared, String::new());
                let per: u32 = if fps < 1 { 1 } else { fps };
                let watch = Watch {
                    gen,
                    min_gap: (800 / per) as u64 * 1_000_000,
                    last_hash: 0,
                    last_proc: None,
                    last_frame: now,
                };
                let (wait, outcome): (Wait, Outcome) = watch_on(shared, watch, now);
                (wait, Outcome { notify: true, action: outcome.action })
            },
            (Wait::Ready { gen: _, fps: _ }, Event::StartFailed(reason)) => {
                let mut text: String = reason;
                text.append(" — 재시도 중");
                tell(shared, text);
                (Wait::Pause, Outcome { notify: true, action: Action::Sleep(2) })
            },
            (Wait::Ready { gen: _, fps: _ }, Event::StartTimedOut) => {
                tell(shared, "캡처 시작이 지연되고 있습니다 — 재시도 중".to_owned());
                (Wait::Pause, Outcome { notify: true, action: Action::Sleep(2) })
            },
            (Wait::Pause, Event::Done) => begin(shared),
            (Wait::Frames(watch), Event::FrameCame { gen, frame, now }) => take(
                shared,
                watch,
                gen,
                frame,
                now,
            ),
            (Wait::Frames(watch), Event::Silence(now)) => miss(shared, watch, now),
            (Wait::Frames(_), Event::Disconnected) => begin(shared),
            (Wait::Working(watch), Event::Processed(result)) => publish(shared, watch, result),
            (Wait::Clock(watch), Event::Now(now)) => {
                let mut done: Watch = watch;
                done.last_proc = Some(now);
                watch_on(shared, done, now)
            },
            _ => stop(),
        };
        self.wait = wait;
        outcome
    }
}

} // verus!
