//! The pump: it owns one capture stream and hands its frames to the capture loop until
//! its stream is obsolete.
use vstd::prelude::*;
use vstd::string::StringExecFns;

use crate::shared::{Shared, State};

verus! {

/// What happened to the pump's stream.
pub enum PumpEvent {
    Built,
    /// The stream could not be built, for the given reason.
    BuildFailed(String),
    BuildPanicked,
    Started,
    StartPanicked,
    /// A frame has come.
    FrameReady,
    /// The frame was handed over, or there was nobody left to take it.
    Sent(bool),
    /// The stream has ended or failed.
    CaptureFailed,
}

/// What the pump does next.
pub enum PumpAction {
    StartCapture,
    /// Report the reason of the failure, and end.
    Fail(String),
    /// Report that the stream runs, and wait for a frame.
    Ready,
    /// Hand the frame over.
    Forward,
    /// Wait for the next frame.
    NextFrame,
    /// Close the stream, and end.
    StopCapture,
}

/// The model of what the pump does next.
pub enum PumpMove {
    StartCapture,
    Fail(Seq<char>),
    Ready,
    Forward,
    NextFrame,
    StopCapture,
}

impl View for PumpAction {
    type V = PumpMove;

    open spec fn view(&self) -> PumpMove {
        match *self {
            PumpAction::StartCapture => PumpMove::StartCapture,
            PumpAction::Fail(reason) => PumpMove::Fail(reason@),
            PumpAction::Ready => PumpMove::Ready,
            PumpAction::Forward => PumpMove::Forward,
            PumpAction::NextFrame => PumpMove::NextFrame,
            PumpAction::StopCapture => PumpMove::StopCapture,
        }
    }
}

/// The stream numbered `gen` is no longer wanted.
pub open spec fn is_obsolete(state: State, gen: u64) -> bool {
    state.generation != gen || state.quit
}

/// What the pump of stream `gen` does after an event.
pub open spec fn pump_move(state: State, gen: u64, event: PumpEvent) -> PumpMove {
    match event {
        PumpEvent::Built => PumpMove::StartCapture,
        PumpEvent::BuildFailed(reason) => PumpMove::Fail(
            "캡처 시작 실패("@ + reason@ + ")"@,
        ),
        PumpEvent::BuildPanicked => PumpMove::Fail("캡처 초기화 오류"@),
        PumpEvent::Started => PumpMove::Ready,
        PumpEvent::StartPanicked => PumpMove::Fail("캡처 스트림을 시작하지 못했습니다"@),
        PumpEvent::FrameReady => if is_obsolete(state, gen) {
            PumpMove::StopCapture
        } else {
            PumpMove::Forward
        },
        PumpEvent::Sent(taken) => if taken {
            PumpMove::NextFrame
        } else {
            PumpMove::StopCapture
        },
        PumpEvent::CaptureFailed => PumpMove::StopCapture,
    }
}

/// What the pump of stream `gen` does after an event.
pub fn pump_frames(shared: &Shared, gen: u64, event: PumpEvent) -> (action: PumpAction)
    ensures
        action@ == pump_move(shared@, gen, event),
{
    match event {
        PumpEvent::Built => PumpAction::StartCapture,
        PumpEvent::BuildFailed(reason) => {
            let mut text: String = String::new();
            text.append("캡처 시작 실패(");
            text.append(reason.as_str());
            text.append(")");
            assert(text@ =~= "캡처 시작 실패("@ + reason@ + ")"@);
            PumpAction::Fail(text)
        },
        PumpEvent::BuildPanicked => PumpAction::Fail("캡처 초기화 오류".to_owned()),
        PumpEvent::Started => PumpAction::Ready,
        PumpEvent::StartPanicked => PumpAction::Fail(
            "캡처 스트림을 시작하지 못했습니다".to_owned(),
        ),
        PumpEvent::FrameReady => if shared.generation != gen || shared.quit {
            PumpAction::StopCapture
        } else {
            PumpAction::Forward
        },
        PumpEvent::Sent(taken) => if taken {
            PumpAction::NextFrame
        } else {
            PumpAction::StopCapture
        },
        PumpEvent::CaptureFailed => PumpAction::StopCapture,
    }
}

/// A pump whose stream is obsolete hands no frame over: it ends with the next one.
pub proof fn law_obsolete_pump_ends(state: State, gen: u64)
    requires
        is_obsolete(state, gen),
    ensures
        pump_move(state, gen, PumpEvent::FrameReady) == PumpMove::StopCapture,
{
}

} // verus!
