use blurscreen::keys::{on_key, Key, KeyEvent};
use blurscreen::shared::Shared;
use blurscreen::title::title_of;
use blurscreen::window::{App, WindowAction, WindowEvent};

fn typed(text: &str) -> KeyEvent {
    KeyEvent { pressed: true, repeat: false, key: Key::Character(text.to_string()) }
}

fn space() -> KeyEvent {
    KeyEvent { pressed: true, repeat: false, key: Key::Space }
}

#[test]
fn digits_choose_the_strength() {
    let mut shared = Shared::new();
    for (text, strength) in [("1", 0), ("3", 2), ("2", 1)] {
        assert!(on_key(&mut shared, &typed(text)));
        assert_eq!(shared.strength, strength);
        assert!(!shared.rebuild);
    }
}

#[test]
fn frame_rate_key_goes_round() {
    let mut shared = Shared::new();
    let mut seen = Vec::new();
    for text in ["f", "F", "ㄹ", "f"] {
        shared.rebuild = false;
        assert!(on_key(&mut shared, &typed(text)));
        assert!(shared.rebuild);
        seen.push(shared.fps_idx);
    }
    assert_eq!(seen, [2, 0, 1, 2]);
    assert_eq!(shared.strength, 1);
}

#[test]
fn display_key_goes_round() {
    let mut shared = Shared::new();
    shared.display_count = 3;
    shared.display_idx = 7;
    let mut seen = Vec::new();
    for text in ["m", "M", "ㅡ", "m"] {
        shared.rebuild = false;
        assert!(on_key(&mut shared, &typed(text)));
        assert!(shared.rebuild);
        seen.push(shared.display_idx);
    }
    assert_eq!(seen, [2, 0, 1, 2]);
    shared.display_count = 0;
    assert!(on_key(&mut shared, &typed("m")));
    assert_eq!(shared.display_idx, 0);
    shared.display_count = 3;
    shared.display_idx = usize::MAX;
    assert!(on_key(&mut shared, &typed("m")));
    assert_eq!(shared.display_idx, 0);
}

#[test]
fn space_pauses_and_goes_on() {
    let mut shared = Shared::new();
    assert!(on_key(&mut shared, &space()));
    assert!(shared.paused && !shared.rebuild);
    assert!(on_key(&mut shared, &space()));
    assert!(!shared.paused);
}

#[test]
fn other_keys_do_nothing() {
    let mut shared = Shared::new();
    for text in ["4", "0", "", "12", "ff", "ㅁ", "x"] {
        assert!(!on_key(&mut shared, &typed(text)));
    }
    assert!(!on_key(&mut shared, &KeyEvent { pressed: true, repeat: false, key: Key::Other }));
    let mut up = typed("3");
    up.pressed = false;
    assert!(!on_key(&mut shared, &up));
    let mut held = space();
    held.repeat = true;
    assert!(!on_key(&mut shared, &held));
    assert_eq!((shared.strength, shared.fps_idx, shared.display_idx), (1, 1, 0));
    assert!(!shared.paused && !shared.rebuild && !shared.quit);
}

#[test]
fn title_tells_the_settings() {
    let mut shared = Shared::new();
    assert_eq!(title_of(&shared), "Blur Screen — 블러 중 · 10fps");
    shared.strength = 0;
    shared.fps_idx = 2;
    shared.paused = true;
    assert_eq!(title_of(&shared), "Blur Screen — 블러 약 · 15fps · 일시정지");
    shared.strength = 5;
    shared.fps_idx = 3;
    shared.display_count = 12;
    shared.display_idx = 22;
    assert_eq!(title_of(&shared), "Blur Screen — 블러 강 · 5fps · 모니터 11/12 · 일시정지");
    shared.paused = false;
    shared.display_count = 0;
    assert_eq!(title_of(&shared), "Blur Screen — 블러 강 · 5fps");
}

#[test]
fn notice_takes_the_place_of_the_settings() {
    let mut shared = Shared::new();
    shared.paused = true;
    shared.status = "캡처 초기화 오류 — 재시도 중".to_string();
    let title = title_of(&shared);
    assert_eq!(title, "Blur Screen — 캡처 초기화 오류 — 재시도 중");
    assert!(title.starts_with("Blur Screen"));
}

#[test]
fn window_and_capture_begin_once() {
    let mut app = App::new();
    assert!(!app.has_window && !app.capture_started && app.last_title.is_empty());
    let first = app.resumed();
    assert!(first.create_window && first.start_capture);
    let again = app.resumed();
    assert!(!again.create_window && !again.start_capture);
    let mut app = App { has_window: true, capture_started: false, last_title: String::new() };
    let todo = app.resumed();
    assert!(!todo.create_window && todo.start_capture);
}

#[test]
fn title_is_renewed_when_it_changes() {
    let mut shared = Shared::new();
    let mut app = App::new();
    assert!(app.update_title(&shared).is_none());
    assert!(app.last_title.is_empty());
    app.resumed();
    assert_eq!(app.update_title(&shared).unwrap(), "Blur Screen — 블러 중 · 10fps");
    assert!(app.update_title(&shared).is_none());
    shared.paused = true;
    assert_eq!(app.update_title(&shared).unwrap(), "Blur Screen — 블러 중 · 10fps · 일시정지");
    assert_eq!(app.last_title, "Blur Screen — 블러 중 · 10fps · 일시정지");
}

#[test]
fn window_events_lead_to_actions() {
    let mut shared = Shared::new();
    let mut app = App::new();
    let act = |app: &App, shared: &mut Shared, event: WindowEvent| app.window_event(shared, event);
    assert!(matches!(act(&app, &mut shared, WindowEvent::Resized), WindowAction::Nothing));
    app.resumed();
    assert!(matches!(act(&app, &mut shared, WindowEvent::Resized), WindowAction::RequestRedraw));
    assert!(matches!(act(&app, &mut shared, WindowEvent::RedrawRequested), WindowAction::Draw));
    assert!(matches!(act(&app, &mut shared, WindowEvent::Other), WindowAction::Nothing));
    let key = WindowEvent::KeyboardInput(typed("x"));
    assert!(matches!(act(&app, &mut shared, key), WindowAction::Nothing));
    let key = WindowEvent::KeyboardInput(typed("3"));
    assert!(matches!(act(&app, &mut shared, key), WindowAction::SaveAndRetitle));
    assert_eq!(shared.strength, 2);
    assert!(!shared.quit);
    assert!(matches!(act(&app, &mut shared, WindowEvent::CloseRequested), WindowAction::SaveAndExit));
    assert!(shared.quit);
    assert_eq!((shared.strength, shared.fps_idx), (2, 1));
}
