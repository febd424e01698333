use cub3d_notify::session::FrameEvent;
use cub3d_notify::session::LoopState;
use cub3d_notify::session::connect_outcome;
use cub3d_notify::session::observe_sink_result;
use cub3d_notify::session::step;
use cub3d_notify::session::transport_failed;

#[test]
fn connect_success_enters_reading() {
    assert_eq!(connect_outcome(true), LoopState::Reading);
}

#[test]
fn connect_failure_is_terminal() {
    assert_eq!(connect_outcome(false), LoopState::Terminated);
}

#[test]
fn text_frame_raises_requests_and_keeps_reading() {
    let frame = FrameEvent::Text(
        "{\"targetAppID\":\"x\",\"message\":{\"title\":\"T\",\"content\":\"B\"}}".to_string(),
    );
    let (state, requests) = step(LoopState::Reading, &frame);
    assert_eq!(state, LoopState::Reading);
    assert!(requests.len() == 1);
    assert!(requests[0].title == Some("T".to_string()));
    assert!(requests[0].body == Some("B".to_string()));
}

#[test]
fn malformed_text_never_notifies() {
    let frame = FrameEvent::Text("this is not an envelope".to_string());
    let (state, requests) = step(LoopState::Reading, &frame);
    assert_eq!(state, LoopState::Reading);
    assert!(requests.is_empty());
}

#[test]
fn non_text_frames_are_noops() {
    for frame in [FrameEvent::Binary, FrameEvent::Ping, FrameEvent::Pong] {
        let (state, requests) = step(LoopState::Reading, &frame);
        assert_eq!(state, LoopState::Reading);
        assert!(requests.is_empty());
    }
}

#[test]
fn close_frame_is_terminal() {
    let (state, requests) = step(LoopState::Reading, &FrameEvent::Close);
    assert_eq!(state, LoopState::Terminated);
    assert!(requests.is_empty());
}

#[test]
fn queued_frames_after_close_are_not_processed() {
    let mut state = LoopState::Reading;
    let queued = [
        FrameEvent::Close,
        FrameEvent::Text(
            "{\"targetAppID\":\"x\",\"message\":{\"title\":\"T\",\"content\":\"B\"}}".to_string(),
        ),
        FrameEvent::Ping,
    ];
    let mut raised: usize = 0;
    for frame in &queued {
        let (next, requests) = step(state, frame);
        state = next;
        raised += requests.len();
    }
    assert_eq!(state, LoopState::Terminated);
    assert_eq!(raised, 0);
}

#[test]
fn transport_error_is_terminal() {
    assert_eq!(transport_failed(LoopState::Reading), LoopState::Terminated);
    assert_eq!(transport_failed(LoopState::Connecting), LoopState::Terminated);
}

#[test]
fn sink_failure_is_non_fatal() {
    // a failed display leaves the loop reading, and the next frame is
    // processed exactly as usual
    let state = observe_sink_result(LoopState::Reading, false);
    assert_eq!(state, LoopState::Reading);
    let frame = FrameEvent::Text(
        "{\"targetAppID\":\"cub3d.notify\",\"dataPayload\":[{\"key\":\"title\",\"value\":\"T2\"}]}"
            .to_string(),
    );
    let (next, requests) = step(state, &frame);
    assert_eq!(next, LoopState::Reading);
    assert!(requests.len() == 1);
    assert!(requests[0].title == Some("T2".to_string()));
    assert!(requests[0].body == None);
}
