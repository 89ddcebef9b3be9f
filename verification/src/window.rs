//! The window's side: what its events lead to, and when its title is renewed.
use vstd::prelude::*;

use crate::keys::{after_command, command_of, on_key, KeyEvent};
use crate::shared::{Shared, State};
use crate::title::{title_of, window_title};

verus! {

/// What the window's side knows of itself.
pub struct App {
    pub has_window: bool,
    pub capture_started: bool,
    /// The title that the window shows.
    pub last_title: String,
}

/// An event of the window.
pub enum WindowEvent {
    CloseRequested,
    Resized,
    RedrawRequested,
    KeyboardInput(KeyEvent),
    Other,
}

/// What an event of the window leads to.
pub enum WindowAction {
    /// Save the settings and leave the event loop.
    SaveAndExit,
    /// Save the settings and renew the title.
    SaveAndRetitle,
    RequestRedraw,
    Draw,
    Nothing,
}

/// What is to be done when the program comes to the front.
pub struct Resumption {
    pub create_window: bool,
    pub start_capture: bool,
}

/// What an event of the window leads to.
pub open spec fn action_of(has_window: bool, event: WindowEvent) -> WindowAction {
    match event {
        WindowEvent::CloseRequested => WindowAction::SaveAndExit,
        WindowEvent::Resized => if has_window {
            WindowAction::RequestRedraw
        } else {
            WindowAction::Nothing
        },
        WindowEvent::RedrawRequested => WindowAction::Draw,
        WindowEvent::KeyboardInput(key) => if command_of(key) is Some {
            WindowAction::SaveAndRetitle
        } else {
            WindowAction::Nothing
        },
        WindowEvent::Other => WindowAction::Nothing,
    }
}

/// The shared state after an event of the window.
pub open spec fn after_event(state: State, event: WindowEvent) -> State {
    match event {
        WindowEvent::CloseRequested => State { quit: true, ..state },
        WindowEvent::KeyboardInput(key) => match command_of(key) {
            Some(command) => after_command(state, command),
            None => state,
        },
        _ => state,
    }
}

impl App {
    /// The window's side before there is a window.
    pub fn new() -> (app: App)
        ensures
            !app.has_window,
            !app.capture_started,
            app.last_title@ == Seq::<char>::empty(),
    {
        App { has_window: false, capture_started: false, last_title: String::new() }
    }

    /// Says what is to be done when the program comes to the front: the window is made
    /// once, and then the capture begins, once.
    pub fn resumed(&mut self) -> (todo: Resumption)
        ensures
            todo.create_window == !old(self).has_window,
            todo.start_capture == !old(self).capture_started,
            final(self).has_window,
            final(self).capture_started,
            final(self).last_title == old(self).last_title,
    {
        let todo = Resumption {
            create_window: !self.has_window,
            start_capture: !self.capture_started,
        };
        self.has_window = true;
        self.capture_started = true;
        todo
    }

    /// The title that the window is to show, where it does not show it yet.
    pub fn update_title(&mut self, shared: &Shared) -> (title: Option<String>)
        ensures
            title is Some <==> old(self).has_window && window_title(shared@) != old(
                self,
            ).last_title@,
            title matches Some(text) ==> text@ == window_title(shared@),
            final(self).last_title@ == if old(self).has_window {
                window_title(shared@)
            } else {
                old(self).last_title@
            },
            final(self).has_window == old(self).has_window,
            final(self).capture_started == old(self).capture_started,
    {
        if !self.has_window {
            return None;
        }
        let title: String = title_of(shared);
        if title == self.last_title {
            return None;
        }
        self.last_title = title.clone();
        Some(title)
    }

    /// Takes an event of the window in, and says what it leads to.
    pub fn window_event(&self, shared: &mut Shared, event: WindowEvent) -> (action: WindowAction)
        ensures
            final(shared)@ == after_event(old(shared)@, event),
            action == action_of(self.has_window, event),
    {
        match event {
            WindowEvent::CloseRequested => {
                shared.quit = true;
                WindowAction::SaveAndExit
            },
            WindowEvent::Resized => if self.has_window {
                WindowAction::RequestRedraw
            } else {
                WindowAction::Nothing
            },
            WindowEvent::RedrawRequested => WindowAction::Draw,
            WindowEvent::KeyboardInput(key) => if on_key(shared, &key) {
                WindowAction::SaveAndRetitle
            } else {
                WindowAction::Nothing
            },
            WindowEvent::Other => WindowAction::Nothing,
        }
    }
}

/// No event of the window takes the choices out of those offered.
pub proof fn law_window_events_keep_choices_valid(state: State, event: WindowEvent)
    requires
        state.wf(),
    ensures
        after_event(state, event).wf(),
{
}

} // verus!
