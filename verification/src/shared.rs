//! The state that the capture side and the window share.
use vstd::prelude::*;

use crate::reduce::{Image, Tiny};

verus! {

/// What the capture side and the window share.
pub struct Shared {
    /// The picture to show. A new one replaces the one before: there is no queue.
    pub frame: Option<Tiny>,
    /// A notice for the user; empty when all is well.
    pub status: String,
    pub strength: usize,
    pub fps_idx: usize,
    pub display_idx: usize,
    pub display_count: usize,
    pub paused: bool,
    /// The capture stream is to be built anew.
    pub rebuild: bool,
    pub quit: bool,
    /// The number of the current capture stream. Streams of other numbers are obsolete.
    pub generation: u64,
}

/// The model of the shared state.
#[verifier::ext_equal]
pub struct State {
    pub frame: Option<Image>,
    pub status: Seq<char>,
    pub strength: usize,
    pub fps_idx: usize,
    pub display_idx: usize,
    pub display_count: usize,
    pub paused: bool,
    pub rebuild: bool,
    pub quit: bool,
    pub generation: u64,
}

/// The model of a picture slot.
pub open spec fn frame_model(frame: Option<Tiny>) -> Option<Image> {
    match frame {
        Some(tiny) => Some(tiny@),
        None => None,
    }
}

impl View for Shared {
    type V = State;

    open spec fn view(&self) -> State {
        State {
            frame: frame_model(self.frame),
            status: self.status@,
            strength: self.strength,
            fps_idx: self.fps_idx,
            display_idx: self.display_idx,
            display_count: self.display_count,
            paused: self.paused,
            rebuild: self.rebuild,
            quit: self.quit,
            generation: self.generation,
        }
    }
}

impl State {
    /// The choices are among those offered, there is a display, and the picture's bytes
    /// cover it.
    pub open spec fn wf(self) -> bool {
        &&& self.strength < 3
        &&& self.fps_idx < 3
        &&& self.display_count >= 1
        &&& self.frame matches Some(image) ==> {
            &&& image.w >= 2
            &&& image.h >= 2
            &&& image.rgb.len() == image.w * image.h * 3
        }
    }

    /// The state at the start: medium blur at 10 frames a second, on the first display.
    pub open spec fn initial() -> State {
        State {
            frame: None,
            status: Seq::empty(),
            strength: 1,
            fps_idx: 1,
            display_idx: 0,
            display_count: 1,
            paused: false,
            rebuild: false,
            quit: false,
            generation: 0,
        }
    }
}

impl Shared {
    /// The state at the start.
    pub fn new() -> (shared: Shared)
        ensures
            shared@ == State::initial(),
            shared@.wf(),
    {
        Shared {
            frame: None,
            status: String::new(),
            strength: 1,
            fps_idx: 1,
            display_idx: 0,
            display_count: 1,
            paused: false,
            rebuild: false,
            quit: false,
            generation: 0,
        }
    }
}

} // verus!
