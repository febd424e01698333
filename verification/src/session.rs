//! The connection loop as a state machine: one streaming connection is
//! established once, frames are pulled one at a time, and each frame is
//! classified and handled in order.
//!
//! The loop's decisions are pure functions from state and event to next
//! state and raised notification requests; the caller owns the transport,
//! performs the blocking reads, and hands each outcome here. Text frames
//! run decode and resolve; binary and keep-alive frames are discarded; a
//! close frame or a transport error ends the reading state for good, and
//! nothing the sink reports back changes the state.

use vstd::prelude::*;
use crate::codec::decode_envelope;
use crate::codec::decode_spec;
use crate::envelope::NotificationRequest;
use crate::envelope::RequestModel;
use crate::resolver::resolve;
use crate::resolver::resolve_spec;

verus! {

/// The connection loop's state: establishing the connection, reading
/// frames, or done for good.
#[derive(Clone, Copy, PartialEq, Eq, Structural, Debug)]
pub enum LoopState {
    Connecting,
    Reading,
    Terminated,
}

/// One frame pulled from the transport, as the loop classifies it; the
/// payloads of binary and keep-alive frames are discarded unread.
pub enum FrameEvent {
    Text(String),
    Binary,
    Ping,
    Pong,
    Close,
}

/// The state after handling one frame: a close frame ends the reading
/// state, every other frame leaves it; a finished loop stays finished.
pub open spec fn next_state(state: LoopState, frame: FrameEvent) -> LoopState {
    match state {
        LoopState::Reading => match frame {
            FrameEvent::Close => LoopState::Terminated,
            _ => LoopState::Reading,
        },
        other => other,
    }
}

/// The notification requests one frame raises: a text frame that decodes
/// raises what the resolver produces for its envelope, in order; every
/// other frame, any malformed text, and any state but reading raise none.
pub open spec fn frame_requests(state: LoopState, frame: FrameEvent) -> Seq<RequestModel> {
    if state is Reading {
        match frame {
            FrameEvent::Text(t) => match decode_spec(t@) {
                Some(d) => resolve_spec(d),
                None => Seq::empty(),
            },
            _ => Seq::empty(),
        }
    } else {
        Seq::empty()
    }
}

/// Handle one frame: the next state and the notification requests to hand
/// to the sink, exactly those of `next_state` and `frame_requests`.
pub fn step(state: LoopState, frame: &FrameEvent) -> (r: (LoopState, Vec<NotificationRequest>))
    ensures
        r.0 == next_state(state, *frame),
        r.1.deep_view() == frame_requests(state, *frame),
{
    match state {
        LoopState::Reading => match frame {
            FrameEvent::Text(t) => {
                let reqs = match decode_envelope(t.as_str()) {
                    Some(data) => resolve(&data),
                    None => Vec::new(),
                };
                proof {
                    assert(reqs.deep_view() =~= frame_requests(state, *frame));
                }
                (LoopState::Reading, reqs)
            },
            FrameEvent::Close => {
                let r = (LoopState::Terminated, Vec::new());
                proof {
                    assert(r.1.deep_view() =~= Seq::<RequestModel>::empty());
                }
                r
            },
            _ => {
                let r = (LoopState::Reading, Vec::new());
                proof {
                    assert(r.1.deep_view() =~= Seq::<RequestModel>::empty());
                }
                r
            },
        },
        other => {
            let r = (other, Vec::new());
            proof {
                assert(r.1.deep_view() =~= Seq::<RequestModel>::empty());
            }
            r
        },
    }
}

/// The state after the one attempt to establish the connection: reading on
/// success, finished on failure — the loop never retries.
pub fn connect_outcome(connected: bool) -> (r: LoopState)
    ensures
        r == (if connected {
            LoopState::Reading
        } else {
            LoopState::Terminated
        }),
{
    if connected {
        LoopState::Reading
    } else {
        LoopState::Terminated
    }
}

/// The state after a transport read error: terminal, whatever the state
/// was.
pub fn transport_failed(_state: LoopState) -> (r: LoopState)
    ensures
        r == LoopState::Terminated,
{
    LoopState::Terminated
}

/// Observe what the sink reported for one displayed request: the outcome
/// is logged at most and never changes the loop's state.
pub fn observe_sink_result(state: LoopState, _shown: bool) -> (r: LoopState)
    ensures
        r == state,
{
    state
}

/// The loop run over a whole sequence of frames: the final state, and all
/// requests raised, in frame order.
pub open spec fn run_spec(state: LoopState, frames: Seq<FrameEvent>) -> (LoopState, Seq<
    RequestModel,
>)
    decreases frames.len(),
{
    if frames.len() == 0 {
        (state, Seq::empty())
    } else {
        let head_state = next_state(state, frames.first());
        let head_reqs = frame_requests(state, frames.first());
        let rest = run_spec(head_state, frames.drop_first());
        (rest.0, head_reqs + rest.1)
    }
}

/// Binary and keep-alive frames are no-ops: the loop stays reading and
/// neither the decoder's envelope nor the sink sees anything of them.
pub proof fn lemma_non_text_frames_are_noops(frame: FrameEvent)
    requires
        frame is Binary || frame is Ping || frame is Pong,
    ensures
        next_state(LoopState::Reading, frame) == LoopState::Reading,
        frame_requests(LoopState::Reading, frame) == Seq::<RequestModel>::empty(),
{
}

/// Text that is not a valid envelope never notifies: a reading loop that
/// is handed such a frame raises no request at all.
pub proof fn lemma_malformed_never_notifies(frame: FrameEvent)
    requires
        frame matches FrameEvent::Text(t) && decode_spec(t@) is None,
    ensures
        frame_requests(LoopState::Reading, frame) == Seq::<RequestModel>::empty(),
        next_state(LoopState::Reading, frame) == LoopState::Reading,
{
}

/// A close frame is terminal: it ends the reading state, and however many
/// frames are still queued after it, none is processed and none raises a
/// request.
pub proof fn lemma_close_is_terminal(queued: Seq<FrameEvent>)
    ensures
        next_state(LoopState::Reading, FrameEvent::Close) == LoopState::Terminated,
        run_spec(LoopState::Terminated, queued).0 == LoopState::Terminated,
        run_spec(LoopState::Terminated, queued).1 == Seq::<RequestModel>::empty(),
    decreases queued.len(),
{
    if queued.len() > 0 {
        lemma_close_is_terminal(queued.drop_first());
        assert(frame_requests(LoopState::Terminated, queued.first()) + Seq::<
            RequestModel,
        >::empty() =~= Seq::<RequestModel>::empty());
    }
}

} // verus!
