use blurscreen::capture::{
    find_targets, Action, Capture, Event, Job, Outcome, Target, Wait, Watch, PERMISSION_POLLS,
    RECEIVE_LIMIT, STALL_LIMIT, START_LIMIT,
};
use blurscreen::frame::{Frame, Picture};
use blurscreen::pump::{pump_frames, PumpAction, PumpEvent};
use blurscreen::reduce::process_frame;
use blurscreen::shared::Shared;
use blurscreen::title::title_of;

const MS: u64 = 1_000_000;
const SEC: u64 = 1_000_000_000;

fn frame(seed: usize) -> Frame {
    let data = (0..40 * 30 * 4).map(|i| ((i * i * 31 + i * 7 + seed * 50) % 256) as u8).collect();
    Frame::BGRA(Picture { width: 40, height: 30, data })
}

fn window(title: &str) -> Target {
    Target::Window(title.to_string())
}

/// A loop that watches over stream 1 since the time 0.
fn running(shared: &mut Shared) -> Capture {
    let mut capture = Capture { wait: Wait::Targets };
    capture.step(shared, Event::Targets(vec![Target::Display]));
    let out = capture.step(shared, Event::Started(0));
    assert!(matches!(out.action, Action::Receive(RECEIVE_LIMIT)));
    capture
}

fn watch(capture: &Capture) -> Watch {
    match capture.wait {
        Wait::Frames(watch) | Wait::Working(watch) | Wait::Clock(watch) => watch,
        _ => panic!("no stream is under watch"),
    }
}

/// Takes the event in and, where a frame is put to work, what it comes to.
fn worked(capture: &mut Capture, shared: &mut Shared, event: Event) -> Outcome {
    let out = capture.step(shared, event);
    match out.action {
        Action::Process(job) => {
            assert!(!out.notify);
            capture.step(shared, job.run())
        }
        _ => out,
    }
}

fn came(capture: &mut Capture, shared: &mut Shared, gen: u64, seed: usize, now: u64) -> Outcome {
    worked(capture, shared, Event::FrameCame { gen, frame: frame(seed), now })
}

#[test]
fn unsupported_screens_end_the_loop() {
    let mut shared = Shared::new();
    let (mut capture, first) = Capture::new();
    assert!(matches!(first, Action::CheckSupport));
    let out = capture.step(&mut shared, Event::Support(false));
    assert!(out.notify && matches!(out.action, Action::Stop));
    assert_eq!(
        shared.status,
        "이 환경에서는 화면 캡처가 지원되지 않습니다 (macOS 12.3+ / Windows 10 1903+ 필요)"
    );
    let out = capture.step(&mut shared, Event::Done);
    assert!(!out.notify && matches!(out.action, Action::Stop));
}

#[test]
fn granted_permission_leads_to_the_targets() {
    let mut shared = Shared::new();
    let (mut capture, _) = Capture::new();
    let out = capture.step(&mut shared, Event::Support(true));
    assert!(!out.notify && matches!(out.action, Action::CheckPermission));
    let out = capture.step(&mut shared, Event::Permission(true));
    assert!(!out.notify && matches!(out.action, Action::ListTargets));
    assert_eq!(shared.status, "");
}

#[test]
fn permission_is_looked_for_a_fixed_number_of_times() {
    let mut shared = Shared::new();
    let mut capture = Capture { wait: Wait::Permission };
    let out = capture.step(&mut shared, Event::Permission(false));
    assert!(!out.notify && matches!(out.action, Action::RequestPermission));
    let mut out = capture.step(&mut shared, Event::Done);
    assert!(out.notify);
    assert_eq!(
        shared.status,
        "화면 기록 권한이 필요합니다 — 시스템 설정 › 개인정보 보호 › 화면 기록에서 허용한 뒤 앱을 다시 실행해 주세요"
    );
    let mut sleeps = 0;
    loop {
        assert!(matches!(out.action, Action::CheckPermission));
        let last = matches!(capture.wait, Wait::LastPermission);
        out = capture.step(&mut shared, Event::Permission(false));
        if last {
            break;
        }
        assert!(matches!(out.action, Action::Sleep(2)));
        sleeps += 1;
        out = capture.step(&mut shared, Event::Done);
    }
    assert_eq!(sleeps, PERMISSION_POLLS);
    assert!(matches!(out.action, Action::Stop));
}

#[test]
fn permission_granted_late_leads_to_the_targets() {
    let mut shared = Shared::new();
    let mut capture = Capture { wait: Wait::PollPause(7) };
    let out = capture.step(&mut shared, Event::Done);
    assert!(matches!(out.action, Action::CheckPermission) && matches!(capture.wait, Wait::Poll(8)));
    let out = capture.step(&mut shared, Event::Permission(true));
    assert!(matches!(out.action, Action::CheckPermission));
    let out = capture.step(&mut shared, Event::Permission(true));
    assert!(matches!(out.action, Action::ListTargets));
}

#[test]
fn targets_are_sorted_out() {
    let targets = vec![
        window("Blur Screen"),
        Target::Display,
        window("Notes"),
        Target::Display,
        window("Blur Screen — 블러 중 · 10fps"),
        window("My Blur Screen"),
    ];
    assert_eq!(find_targets(&targets), (vec![1, 3], vec![0, 4]));
    assert_eq!(find_targets(&vec![]), (vec![], vec![]));
}

#[test]
fn own_window_is_known_by_any_title() {
    let mut shared = Shared::new();
    let mut targets = vec![Target::Window(title_of(&shared))];
    shared.paused = true;
    shared.display_count = 4;
    targets.push(Target::Window(title_of(&shared)));
    shared.status = "오류".to_string();
    targets.push(Target::Window(title_of(&shared)));
    assert_eq!(find_targets(&targets).1, [0, 1, 2]);
}

#[test]
fn stream_is_started_on_the_chosen_display() {
    let mut shared = Shared::new();
    shared.display_idx = 5;
    shared.fps_idx = 2;
    shared.generation = 41;
    let mut capture = Capture { wait: Wait::Targets };
    let targets = vec![Target::Display, window("Blur Screen"), window("x"), Target::Display];
    let out = capture.step(&mut shared, Event::Targets(targets));
    assert!(!out.notify);
    match out.action {
        Action::StartPump { gen, fps, display, excluded, within } => {
            assert_eq!((gen, fps, display, within), (42, 15, 3, 10));
            assert_eq!(excluded, [1]);
        }
        _ => panic!("no stream was started"),
    }
    assert_eq!((shared.display_count, shared.display_idx, shared.generation), (2, 5, 42));
}

#[test]
fn no_display_is_tried_again() {
    let mut shared = Shared::new();
    let mut capture = Capture { wait: Wait::Targets };
    let out = capture.step(&mut shared, Event::Targets(vec![window("x")]));
    assert!(out.notify && matches!(out.action, Action::Sleep(1)));
    assert_eq!(shared.status, "캡처할 디스플레이를 찾지 못했습니다 — 재시도 중");
    assert_eq!((shared.display_count, shared.generation), (1, 0));
    let out = capture.step(&mut shared, Event::Done);
    assert!(matches!(out.action, Action::ListTargets));
}

#[test]
fn failed_starts_are_tried_again() {
    let mut shared = Shared::new();
    let mut capture = Capture { wait: Wait::Ready { gen: 1, fps: 10 } };
    let out = capture.step(&mut shared, Event::StartFailed("캡처 초기화 오류".to_string()));
    assert!(out.notify && matches!(out.action, Action::Sleep(2)));
    assert_eq!(shared.status, "캡처 초기화 오류 — 재시도 중");
    let mut capture = Capture { wait: Wait::Ready { gen: 1, fps: 10 } };
    let out = capture.step(&mut shared, Event::StartTimedOut);
    assert!(out.notify && matches!(out.action, Action::Sleep(2)));
    assert_eq!(shared.status, "캡처 시작이 지연되고 있습니다 — 재시도 중");
    let out = capture.step(&mut shared, Event::Done);
    assert!(matches!(out.action, Action::ListTargets));
}

#[test]
fn running_stream_clears_the_notice() {
    for (fps, gap) in [(5, 160), (10, 80), (15, 53), (0, 800)] {
        let mut shared = Shared::new();
        shared.status = "old".to_string();
        let mut capture = Capture { wait: Wait::Ready { gen: 9, fps } };
        let out = capture.step(&mut shared, Event::Started(70));
        assert!(out.notify && matches!(out.action, Action::Receive(RECEIVE_LIMIT)));
        assert_eq!(shared.status, "");
        let w = watch(&capture);
        assert_eq!((w.gen, w.min_gap, w.last_hash, w.last_frame), (9, gap * MS, 0, 70));
        assert!(w.last_proc.is_none());
    }
}

#[test]
fn new_frame_becomes_the_picture() {
    let mut shared = Shared::new();
    let mut capture = running(&mut shared);
    let out = came(&mut capture, &mut shared, 1, 0, 5);
    assert!(out.notify && matches!(out.action, Action::ReadClock));
    let want = process_frame(&frame(0), 320, 17, 0).unwrap();
    assert_eq!(watch(&capture).last_hash, want.hash);
    assert_eq!(watch(&capture).last_frame, 5);
    assert_eq!(shared.frame.as_ref().unwrap().rgb, want.tiny.unwrap().rgb);
    let out = capture.step(&mut shared, Event::Now(8));
    assert!(!out.notify && matches!(out.action, Action::Receive(RECEIVE_LIMIT)));
    assert_eq!(watch(&capture).last_proc, Some(8));
}

#[test]
fn strength_of_the_moment_is_used() {
    let mut shared = Shared::new();
    shared.strength = 2;
    let mut capture = running(&mut shared);
    let wide = Frame::RGB(Picture { width: 400, height: 4, data: vec![9; 4800] });
    let out = capture.step(&mut shared, Event::FrameCame { gen: 1, frame: wide, now: 5 });
    // What is chosen while the frame is at work counts for the next one.
    shared.strength = 0;
    shared.paused = true;
    let Action::Process(job) = out.action else { panic!("no frame was put to work") };
    let out = capture.step(&mut shared, job.run());
    assert!(out.notify);
    assert_eq!(shared.frame.unwrap().w, 192);
    assert!(shared.paused);
    assert_eq!(shared.strength, 0);
}

#[test]
fn job_turns_a_frame_into_a_picture() {
    let job = Job { frame: frame(3), strength: 4, prev_hash: 9 };
    let want = process_frame(&frame(3), 320, 17, 9).unwrap();
    match job.run() {
        Event::Processed(Some(got)) => {
            assert_eq!(got.hash, want.hash);
            assert_eq!(got.tiny.unwrap().rgb, want.tiny.unwrap().rgb);
        }
        _ => panic!("the frame came to nothing"),
    }
    let job = Job { frame: frame(3), strength: 1, prev_hash: want.hash };
    assert!(matches!(job.run(), Event::Processed(Some(got)) if got.tiny.is_none()));
    let job = Job { frame: Frame::YUVFrame, strength: 0, prev_hash: 0 };
    assert!(matches!(job.run(), Event::Processed(None)));
}

#[test]
fn limits_are_ten_seconds_and_one() {
    assert_eq!((START_LIMIT, RECEIVE_LIMIT, STALL_LIMIT), (10, SEC, 20 * SEC));
}

#[test]
fn frames_that_change_nothing_are_not_told() {
    let mut shared = Shared::new();
    let mut capture = running(&mut shared);
    came(&mut capture, &mut shared, 1, 0, 0);
    capture.step(&mut shared, Event::Now(0));
    let hash = watch(&capture).last_hash;
    let out = came(&mut capture, &mut shared, 1, 0, SEC);
    assert!(!out.notify && matches!(out.action, Action::ReadClock));
    assert_eq!(watch(&capture).last_hash, hash);
    capture.step(&mut shared, Event::Now(SEC));
    let planar = Event::FrameCame { gen: 1, frame: Frame::YUVFrame, now: 2 * SEC };
    let out = worked(&mut capture, &mut shared, planar);
    assert!(!out.notify && matches!(out.action, Action::ReadClock));
    assert_eq!(watch(&capture).last_hash, hash);
}

#[test]
fn frames_of_other_streams_are_ignored() {
    let mut shared = Shared::new();
    let mut capture = running(&mut shared);
    let out = came(&mut capture, &mut shared, 2, 0, 99);
    assert!(!out.notify && matches!(out.action, Action::Receive(RECEIVE_LIMIT)));
    assert!(shared.frame.is_none());
    assert_eq!(watch(&capture).last_frame, 0);
}

#[test]
fn pause_freezes_the_picture_but_not_the_watch() {
    let mut shared = Shared::new();
    shared.paused = true;
    let mut capture = running(&mut shared);
    let out = came(&mut capture, &mut shared, 1, 0, 99);
    assert!(!out.notify && matches!(out.action, Action::Receive(RECEIVE_LIMIT)));
    assert!(shared.frame.is_none());
    assert_eq!(watch(&capture).last_frame, 99);
    assert!(watch(&capture).last_proc.is_none());
}

#[test]
fn surplus_frames_are_dropped() {
    let mut shared = Shared::new();
    let mut capture = running(&mut shared);
    came(&mut capture, &mut shared, 1, 0, 0);
    capture.step(&mut shared, Event::Now(10 * MS));
    let first = shared.frame.as_ref().unwrap().rgb.clone();
    let out = came(&mut capture, &mut shared, 1, 1, 90 * MS - 1);
    assert!(!out.notify && matches!(out.action, Action::Receive(RECEIVE_LIMIT)));
    assert_eq!(shared.frame.as_ref().unwrap().rgb, first);
    let out = came(&mut capture, &mut shared, 1, 1, 90 * MS);
    assert!(out.notify && matches!(out.action, Action::ReadClock));
    assert_ne!(shared.frame.as_ref().unwrap().rgb, first);
    // A clock that goes back counts as no time.
    capture.step(&mut shared, Event::Now(500 * MS));
    let out = came(&mut capture, &mut shared, 1, 2, 100 * MS);
    assert!(matches!(out.action, Action::Receive(RECEIVE_LIMIT)));
}

#[test]
fn stalled_stream_is_replaced_after_the_limit() {
    let mut shared = Shared::new();
    let mut capture = running(&mut shared);
    came(&mut capture, &mut shared, 1, 0, SEC);
    capture.step(&mut shared, Event::Now(SEC));
    let out = capture.step(&mut shared, Event::Silence(STALL_LIMIT - 1));
    assert!(matches!(out.action, Action::Receive(RECEIVE_LIMIT)));
    // The last wait ends with the limit.
    let out = capture.step(&mut shared, Event::Silence(SEC + STALL_LIMIT - 400 * MS));
    assert!(matches!(out.action, Action::Receive(nanos) if nanos == 400 * MS));
    let out = capture.step(&mut shared, Event::Silence(SEC + STALL_LIMIT - 1));
    assert!(matches!(out.action, Action::Receive(1)));
    let out = capture.step(&mut shared, Event::Silence(SEC + STALL_LIMIT));
    assert!(!out.notify && matches!(out.action, Action::ListTargets));
    let out = capture.step(&mut shared, Event::Targets(vec![Target::Display]));
    assert!(matches!(out.action, Action::StartPump { gen: 2, .. }));
    assert_eq!(shared.generation, 2);
    let mut capture = running(&mut shared);
    let out = capture.step(&mut shared, Event::Disconnected);
    assert!(matches!(out.action, Action::ListTargets));
}

#[test]
fn stray_frames_do_not_put_off_the_limit() {
    let mut shared = Shared::new();
    let mut capture = running(&mut shared);
    let out = came(&mut capture, &mut shared, 7, 0, STALL_LIMIT - 10);
    assert!(matches!(out.action, Action::Receive(10)));
    let out = came(&mut capture, &mut shared, 7, 0, STALL_LIMIT);
    assert!(!out.notify && matches!(out.action, Action::ListTargets));
    assert!(shared.frame.is_none());
    shared.quit = true;
    let w = Watch { gen: 1, min_gap: 0, last_hash: 0, last_proc: None, last_frame: 0 };
    let mut capture = Capture { wait: Wait::Frames(w) };
    let out = came(&mut capture, &mut shared, 7, 0, STALL_LIMIT);
    assert!(matches!(out.action, Action::Stop));
}

#[test]
fn work_that_outlasts_the_limit_ends_the_watch() {
    let mut shared = Shared::new();
    let mut capture = running(&mut shared);
    came(&mut capture, &mut shared, 1, 0, SEC);
    let out = capture.step(&mut shared, Event::Now(SEC + STALL_LIMIT - 300 * MS));
    assert!(matches!(out.action, Action::Receive(nanos) if nanos == 300 * MS));
    let mut capture = running(&mut shared);
    shared.frame = None;
    came(&mut capture, &mut shared, 2, 0, SEC);
    let out = capture.step(&mut shared, Event::Now(SEC + STALL_LIMIT));
    assert!(matches!(out.action, Action::ListTargets));
}

#[test]
fn number_in_force_is_that_of_the_stream() {
    let mut shared = Shared::new();
    for gen in 1..4 {
        let mut capture = running(&mut shared);
        assert_eq!((watch(&capture).gen, shared.generation), (gen, gen));
        came(&mut capture, &mut shared, gen, gen as usize, SEC);
        assert_eq!((watch(&capture).gen, shared.generation), (gen, gen));
    }
}

#[test]
fn rebuild_request_is_heeded_once() {
    let mut shared = Shared::new();
    let mut capture = running(&mut shared);
    shared.rebuild = true;
    let out = capture.step(&mut shared, Event::Silence(0));
    assert!(matches!(out.action, Action::ListTargets));
    assert!(!shared.rebuild);
    let mut capture = Capture { wait: Wait::Ready { gen: 3, fps: 10 } };
    shared.rebuild = true;
    let out = capture.step(&mut shared, Event::Started(0));
    assert!(out.notify && matches!(out.action, Action::ListTargets));
    assert!(!shared.rebuild);
}

#[test]
fn quitting_ends_every_wait() {
    let quit = || {
        let mut shared = Shared::new();
        shared.quit = true;
        shared
    };
    let w = Watch { gen: 1, min_gap: 0, last_hash: 0, last_proc: None, last_frame: 0 };
    let cases = vec![
        (Wait::Permission, Event::Permission(true)),
        (Wait::Request, Event::Done),
        (Wait::PollPause(3), Event::Done),
        (Wait::LastPermission, Event::Permission(true)),
        (Wait::Pause, Event::Done),
        (Wait::Ready { gen: 1, fps: 5 }, Event::Started(0)),
        (Wait::Frames(w), Event::Silence(0)),
        (Wait::Frames(w), Event::Silence(u64::MAX)),
        (Wait::Frames(w), Event::Disconnected),
        (Wait::Clock(w), Event::Now(0)),
    ];
    for (wait, event) in cases {
        let mut capture = Capture { wait };
        let out = capture.step(&mut quit(), event);
        assert!(matches!(out.action, Action::Stop) && matches!(capture.wait, Wait::Over));
    }
    let mut capture = Capture { wait: Wait::Frames(w) };
    let mut shared = quit();
    let out = came(&mut capture, &mut shared, 1, 0, 0);
    assert!(matches!(out.action, Action::ReadClock));
    let out = capture.step(&mut shared, Event::Now(0));
    assert!(matches!(out.action, Action::Stop));
}

#[test]
fn answers_to_nothing_end_the_loop() {
    let mut shared = Shared::new();
    let mut capture = running(&mut shared);
    let out = capture.step(&mut shared, Event::Support(true));
    assert!(!out.notify && matches!(out.action, Action::Stop));
}

#[test]
fn pump_goes_from_building_to_frames() {
    let mut shared = Shared::new();
    shared.generation = 4;
    assert!(matches!(pump_frames(&shared, 4, PumpEvent::Built), PumpAction::StartCapture));
    assert!(matches!(pump_frames(&shared, 4, PumpEvent::Started), PumpAction::Ready));
    assert!(matches!(pump_frames(&shared, 4, PumpEvent::FrameReady), PumpAction::Forward));
    assert!(matches!(pump_frames(&shared, 4, PumpEvent::Sent(true)), PumpAction::NextFrame));
    assert!(matches!(pump_frames(&shared, 4, PumpEvent::Sent(false)), PumpAction::StopCapture));
    assert!(matches!(pump_frames(&shared, 4, PumpEvent::CaptureFailed), PumpAction::StopCapture));
}

#[test]
fn obsolete_pump_stops() {
    let mut shared = Shared::new();
    shared.generation = 5;
    assert!(matches!(pump_frames(&shared, 4, PumpEvent::FrameReady), PumpAction::StopCapture));
    shared.quit = true;
    assert!(matches!(pump_frames(&shared, 5, PumpEvent::FrameReady), PumpAction::StopCapture));
}

#[test]
fn pump_tells_why_it_failed() {
    let shared = Shared::new();
    let reason = |event: PumpEvent| match pump_frames(&shared, 0, event) {
        PumpAction::Fail(reason) => reason,
        _ => panic!("the pump did not fail"),
    };
    assert_eq!(reason(PumpEvent::BuildFailed("권한 없음".to_string())), "캡처 시작 실패(권한 없음)");
    assert_eq!(reason(PumpEvent::BuildPanicked), "캡처 초기화 오류");
    assert_eq!(reason(PumpEvent::StartPanicked), "캡처 스트림을 시작하지 못했습니다");
}
