//! The window's title, which tells the settings or what is amiss.
use vstd::prelude::*;
use vstd::string::StringExecFns;

use crate::settings::{fps_at, fps_value, strength_at, strength_label, WINDOW_TITLE};
use crate::shared::{Shared, State};
use crate::text::{decimal, push_decimal};

verus! {

/// The part of the title that tells the display, where there is more than one.
pub open spec fn display_part(state: State) -> Seq<char> {
    if state.display_count > 1 {
        " · 모니터 "@ + decimal((state.display_idx % state.display_count + 1) as nat) + "/"@
            + decimal(state.display_count as nat)
    } else {
        Seq::empty()
    }
}

/// The title: a notice if there is one, else the settings.
pub open spec fn window_title(state: State) -> Seq<char> {
    if state.status.len() == 0 {
        WINDOW_TITLE@ + " — 블러 "@ + strength_label(state.strength as int % 3) + " · "@ + decimal(
            fps_value(state.fps_idx as int % 3) as nat,
        ) + "fps"@ + display_part(state) + if state.paused {
            " · 일시정지"@
        } else {
            Seq::empty()
        }
    } else {
        WINDOW_TITLE@ + " — "@ + state.status
    }
}

/// The window's title.
pub fn title_of(shared: &Shared) -> (title: String)
    ensures
        title@ == window_title(shared@),
{
    let mut title: String = String::new();
    title.append(WINDOW_TITLE);
    if shared.status.as_str().is_empty() {
        title.append(" — 블러 ");
        title.append(strength_at(shared.strength).label);
        title.append(" · ");
        push_decimal(&mut title, fps_at(shared.fps_idx) as usize);
        title.append("fps");
        let n: usize = shared.display_count;
        if n > 1 {
            title.append(" · 모니터 ");
            push_decimal(&mut title, shared.display_idx % n + 1);
            title.append("/");
            push_decimal(&mut title, n);
        }
        if shared.paused {
            title.append(" · 일시정지");
        }
    } else {
        title.append(" — ");
        title.append(shared.status.as_str());
    }
    assert(title@ =~= window_title(shared@));
    title
}

/// Every title begins with the window's name, by which the window is kept out of its own
/// capture.
pub proof fn law_titles_begin_with_the_name(state: State)
    ensures
        WINDOW_TITLE@.is_prefix_of(window_title(state)),
{
    let title = window_title(state);
    assert(title.subrange(0, WINDOW_TITLE@.len() as int) =~= WINDOW_TITLE@);
}

} // verus!
