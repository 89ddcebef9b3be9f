//! The choices offered to the user: blur strengths and frame rates.
use vstd::prelude::*;

verus! {

/// The title of the blurred window; its full title begins with it.
pub const WINDOW_TITLE: &'static str = "Blur Screen";

/// How many blur strengths there are.
pub const STRENGTHS: usize = 3;

/// How many frame rates there are.
pub const FPS_OPTIONS: usize = 3;

/// A blur strength: how many columns the picture is reduced to, how far it is then
/// blurred in tenths of a pixel, and its name. The fewer columns, the more is lost.
pub struct Strength {
    pub target_w: usize,
    pub sigma_tenths: u32,
    pub label: &'static str,
}

/// The columns that strength `i` keeps: weak, medium, strong.
pub open spec fn strength_width(i: int) -> usize {
    if i == 0 {
        480
    } else if i == 1 {
        320
    } else {
        192
    }
}

/// The blur of strength `i`, in tenths of a pixel.
pub open spec fn strength_sigma(i: int) -> u32 {
    if i == 0 {
        13
    } else if i == 1 {
        17
    } else {
        22
    }
}

/// The name of strength `i`.
pub open spec fn strength_label(i: int) -> Seq<char> {
    if i == 0 {
        "약"@
    } else if i == 1 {
        "중"@
    } else {
        "강"@
    }
}

/// Frame rate `i`, in frames a second.
pub open spec fn fps_value(i: int) -> u32 {
    if i == 0 {
        5
    } else if i == 1 {
        10
    } else {
        15
    }
}

/// The blur strength of index `i`; indices past the last begin again.
pub fn strength_at(i: usize) -> (s: Strength)
    ensures
        s.target_w == strength_width(i as int % 3),
        s.sigma_tenths == strength_sigma(i as int % 3),
        s.label@ == strength_label(i as int % 3),
{
    let k: usize = i % STRENGTHS;
    if k == 0 {
        Strength { target_w: 480, sigma_tenths: 13, label: "약" }
    } else if k == 1 {
        Strength { target_w: 320, sigma_tenths: 17, label: "중" }
    } else {
        Strength { target_w: 192, sigma_tenths: 22, label: "강" }
    }
}

/// The frame rate of index `i`; indices past the last begin again.
pub fn fps_at(i: usize) -> (fps: u32)
    ensures
        fps == fps_value(i as int % 3),
{
    let k: usize = i % FPS_OPTIONS;
    if k == 0 {
        5
    } else if k == 1 {
        10
    } else {
        15
    }
}

} // verus!
