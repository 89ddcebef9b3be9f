//! The window's keys.
use vstd::prelude::*;

use crate::shared::{Shared, State};
use crate::text::is_word;

verus! {

/// A key of the keyboard.
pub enum Key {
    /// A key that types a text.
    Character(String),
    Space,
    Other,
}

/// A key going down or up. A key that is held down repeats.
pub struct KeyEvent {
    pub pressed: bool,
    pub repeat: bool,
    pub key: Key,
}

/// What a key asks for.
pub enum Command {
    /// The blur strength of this index.
    SetStrength(usize),
    /// The next frame rate.
    NextFps,
    /// The next display.
    NextDisplay,
    /// To freeze the picture, or to let it go on.
    TogglePause,
}

/// What the text of a key asks for. The letters of the Korean layout that stand on the
/// same keys are taken too.
pub open spec fn command_of_text(text: Seq<char>) -> Option<Command> {
    if text == "1"@ {
        Some(Command::SetStrength(0))
    } else if text == "2"@ {
        Some(Command::SetStrength(1))
    } else if text == "3"@ {
        Some(Command::SetStrength(2))
    } else if text == "f"@ || text == "F"@ || text == "ㄹ"@ {
        Some(Command::NextFps)
    } else if text == "m"@ || text == "M"@ || text == "ㅡ"@ {
        Some(Command::NextDisplay)
    } else {
        None
    }
}

/// What a key event asks for: only a key that goes down, once, asks for anything.
pub open spec fn command_of(event: KeyEvent) -> Option<Command> {
    if !event.pressed || event.repeat {
        None
    } else {
        match event.key {
            Key::Character(text) => command_of_text(text@),
            Key::Space => Some(Command::TogglePause),
            Key::Other => None,
        }
    }
}

/// The number of displays that can be chosen from.
pub open spec fn displays_to_choose(state: State) -> usize {
    if state.display_count < 1 {
        1
    } else {
        state.display_count
    }
}

/// The state after a command. A new frame rate or display asks for a new stream.
pub open spec fn after_command(state: State, command: Command) -> State {
    match command {
        Command::SetStrength(i) => State { strength: i, ..state },
        Command::NextFps => State {
            fps_idx: state.fps_idx.wrapping_add(1) % 3,
            rebuild: true,
            ..state
        },
        Command::NextDisplay => State {
            display_idx: state.display_idx.wrapping_add(1) % displays_to_choose(state),
            rebuild: true,
            ..state
        },
        Command::TogglePause => State { paused: !state.paused, ..state },
    }
}

/// What the text of a key asks for.
fn read_text(text: &str) -> (command: Option<Command>)
    ensures
        command == command_of_text(text@),
{
    if is_word(text, "1") {
        Some(Command::SetStrength(0))
    } else if is_word(text, "2") {
        Some(Command::SetStrength(1))
    } else if is_word(text, "3") {
        Some(Command::SetStrength(2))
    } else if is_word(text, "f") || is_word(text, "F") || is_word(text, "ㄹ") {
        Some(Command::NextFps)
    } else if is_word(text, "m") || is_word(text, "M") || is_word(text, "ㅡ") {
        Some(Command::NextDisplay)
    } else {
        None
    }
}

/// Obeys a key event, and says whether it asked for anything: then the settings are to
/// be saved and the title to be renewed.
pub fn on_key(shared: &mut Shared, event: &KeyEvent) -> (obeyed: bool)
    ensures
        obeyed == (command_of(*event) is Some),
        final(shared)@ == match command_of(*event) {
            Some(command) => after_command(old(shared)@, command),
            None => old(shared)@,
        },
{
    if !event.pressed || event.repeat {
        return false;
    }
    let command: Option<Command> = match &event.key {
        Key::Character(text) => read_text(text.as_str()),
        Key::Space => Some(Command::TogglePause),
        Key::Other => None,
    };
    match command {
        Some(Command::SetStrength(i)) => {
            shared.strength = i;
        },
        Some(Command::NextFps) => {
            shared.fps_idx = shared.fps_idx.wrapping_add(1) % 3;
            shared.rebuild = true;
        },
        Some(Command::NextDisplay) => {
            let n: usize = if shared.display_count < 1 { 1 } else { shared.display_count };
            shared.display_idx = shared.display_idx.wrapping_add(1) % n;
            shared.rebuild = true;
        },
        Some(Command::TogglePause) => {
            shared.paused = !shared.paused;
        },
        None => {
            return false;
        },
    }
    true
}

/// Whatever key is pressed, the choices stay among those offered.
pub proof fn law_keys_keep_choices_valid(state: State, event: KeyEvent)
    requires
        state.wf(),
    ensures
        command_of(event) matches Some(command) ==> after_command(state, command).wf(),
{
}

/// Pausing twice leaves everything as it was.
pub proof fn law_pausing_twice_is_nothing(state: State)
    ensures
        after_command(after_command(state, Command::TogglePause), Command::TogglePause) == state,
{
}

/// The state after giving a command `k` times.
pub open spec fn after_commands(state: State, command: Command, k: nat) -> State
    decreases k,
{
    if k == 0 {
        state
    } else {
        after_command(after_commands(state, command, (k - 1) as nat), command)
    }
}

proof fn lemma_cycle_step(a: int, k: int, n: int)
    by (nonlinear_arith)
    requires
        0 < n,
        0 <= a,
        0 <= k,
    ensures
        ((a + k) % n + 1) % n == (a + k + 1) % n,
{
    let q = (a + k) / n;
    let m = (a + k) % n;
    assert(a + k == q * n + m);
    assert((q * n + (m + 1)) % n == (m + 1) % n) by {
        vstd::arithmetic::div_mod::lemma_mod_multiples_vanish(q, m + 1, n);
    }
}

/// Pressing the frame rate key goes round the three rates, and nothing but the rate
/// changes, save that a new stream is asked for.
pub proof fn law_fps_key_goes_round(state: State, k: nat)
    requires
        state.wf(),
        k > 0,
    ensures
        after_commands(state, Command::NextFps, k) == (State {
            fps_idx: ((state.fps_idx + k) % 3) as usize,
            rebuild: true,
            ..state
        }),
    decreases k,
{
    if k > 1 {
        law_fps_key_goes_round(state, (k - 1) as nat);
    } else {
        reveal_with_fuel(after_commands, 2);
    }
}

/// Pressing the display key goes round all displays, and nothing but the display
/// changes, save that a new stream is asked for.
pub proof fn law_display_key_goes_round(state: State, k: nat)
    requires
        state.wf(),
        state.display_idx < usize::MAX,
        k > 0,
    ensures
        after_commands(state, Command::NextDisplay, k) == (State {
            display_idx: ((state.display_idx + k) % state.display_count as int) as usize,
            rebuild: true,
            ..state
        }),
    decreases k,
{
    let n = state.display_count as int;
    if k > 1 {
        law_display_key_goes_round(state, (k - 1) as nat);
        lemma_cycle_step(state.display_idx as int, k - 1, n);
    } else {
        reveal_with_fuel(after_commands, 2);
    }
}

} // verus!
