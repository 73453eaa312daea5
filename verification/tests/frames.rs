use gopher_netplay::checksum::state_checksum;
use gopher_netplay::config::NetplayConfig;
use gopher_netplay::frame::{
    advance_frame, in_rollback, pending_frames, poll_clients, process_netplay, process_requests,
    FrameAction, FrameEvent, InputSource, RequestStep, SessionEvent,
};
use gopher_netplay::handshake::init;
use gopher_netplay::mailbox::Effect;
use gopher_netplay::netplay::{GgrsRequest, InputStatus, Netplay};
use gopher_netplay::notice::{MessageLength, Notice};
use gopher_netplay::overlay::{
    overlay_line, overlay_stats, worst_stats, NetworkStats, Throughput, WorstStats,
};
use gopher_netplay::slots::own_slots;
use gopher_netplay::text::{push_decimal, push_signed};
use gopher_netplay::wire::NetplayMessage;

fn session() -> Netplay<u16, char> {
    let config = NetplayConfig {
        server_addr: "ws://localhost/room".to_string(),
        local_players: vec![0, 1],
        number_of_players: 2,
        input_delay: 1,
        ice_config_path: std::path::PathBuf::new(),
    };
    init(&config, &own_slots(&vec![0, 1]), false, false).1
}

#[test]
fn a_lost_peer_ends_the_session() {
    let mut netplay = session();
    let events = vec![
        SessionEvent::Synchronizing,
        SessionEvent::Synchronized,
        SessionEvent::NetworkInterrupted,
        SessionEvent::NetworkResumed,
        SessionEvent::WaitRecommendation { skip_frames: 3 },
    ];
    assert!(poll_clients(&mut netplay, &events).is_empty());
    assert!(!netplay.disconnected);
    let events = vec![SessionEvent::Disconnected, SessionEvent::Disconnected];
    assert_eq!(poll_clients(&mut netplay, &events), vec![Effect::Show(Notice::LostConnection)]);
    assert!(netplay.disconnected);
    assert!(poll_clients(&mut netplay, &events).is_empty());
    assert!(netplay.disconnected);
}

#[test]
fn every_desync_is_shown() {
    let mut netplay = session();
    let events = vec![SessionEvent::DesyncDetected, SessionEvent::DesyncDetected];
    assert_eq!(
        poll_clients(&mut netplay, &events),
        vec![Effect::Show(Notice::Desync), Effect::Show(Notice::Desync)]
    );
    assert!(!netplay.disconnected);
}

#[test]
fn frames_that_wait_are_counted() {
    let mut netplay = session();
    assert!(!in_rollback::<u16, char>(None));
    assert!(!in_rollback(Some(&netplay)));
    netplay.requests.push_back(GgrsRequest::LoadGameState { cell: 'a', frame: 3 });
    assert!(!in_rollback(Some(&netplay)));
    netplay.requests.push_back(GgrsRequest::AdvanceFrame { inputs: vec![] });
    netplay.requests.push_back(GgrsRequest::SaveGameState { cell: 'a', frame: 4 });
    netplay.requests.push_back(GgrsRequest::AdvanceFrame { inputs: vec![] });
    assert_eq!(pending_frames(&netplay), 2);
    assert!(in_rollback(Some(&netplay)));
}

#[test]
fn requests_are_followed_oldest_first() {
    let mut netplay = session();
    let inputs = vec![(5u16, InputStatus::Confirmed), (6, InputStatus::Predicted)];
    netplay.requests.push_back(GgrsRequest::SaveGameState { cell: 's', frame: 8 });
    netplay.requests.push_back(GgrsRequest::LoadGameState { cell: 'l', frame: 7 });
    netplay.requests.push_back(GgrsRequest::AdvanceFrame { inputs: inputs.clone() });
    match process_requests(&mut netplay, &[]) {
        RequestStep::Save { cell, frame, checksum } => {
            assert_eq!((cell, frame), ('s', 8));
            assert_eq!(checksum, 0xe3b0_c442_98fc_1c14_9afb_f4c8_996f_b924);
        }
        _ => panic!("no save"),
    }
    assert!(matches!(
        process_requests(&mut netplay, &[]),
        RequestStep::Load { cell: 'l', frame: 7 }
    ));
    match process_requests(&mut netplay, &[]) {
        RequestStep::Advance { inputs: given } => assert_eq!(given, inputs),
        _ => panic!("no frame"),
    }
    assert!(matches!(process_requests(&mut netplay, &[]), RequestStep::Idle));
}

#[test]
fn the_checksum_is_half_of_a_sha256_digest() {
    assert_eq!(state_checksum(&[]), 0xe3b0_c442_98fc_1c14_9afb_f4c8_996f_b924);
    assert_eq!(state_checksum(&[0]), 0xaf55_70f5_a181_0b7a_f78c_af4b_c70a_660f);
    assert_eq!(
        state_checksum(&[1, 0x8000_0000_0000_0000, u64::MAX]),
        0xb6a6_a1a0_0b9c_a2fa_5f7a_0256_7f0b_96c8
    );
}

fn begin(current_frame: i32) -> FrameEvent<u16, char> {
    FrameEvent::Begin { current_frame, max_prediction: 16, local_handles: vec![0, 1] }
}

#[test]
fn controllers_are_read_after_the_prediction_window() {
    let mut netplay = session();
    match advance_frame(&mut netplay, begin(16), 0) {
        FrameAction::GiveInputs(inputs) => {
            assert_eq!(inputs, vec![(0, InputSource::Nothing), (1, InputSource::Nothing)])
        }
        _ => panic!("no inputs"),
    }
    match advance_frame(&mut netplay, begin(17), 0) {
        FrameAction::GiveInputs(inputs) => {
            assert_eq!(inputs, vec![(0, InputSource::Controller), (1, InputSource::Controller)])
        }
        _ => panic!("no inputs"),
    }
}

#[test]
fn the_session_waits_for_missing_inputs() {
    let mut netplay = session();
    let behind = FrameEvent::Polled { current_frame: 5, confirmed_frame: 4 };
    assert!(matches!(advance_frame(&mut netplay, behind, 0), FrameAction::Poll));
    let level = FrameEvent::Polled { current_frame: 5, confirmed_frame: 5 };
    assert!(matches!(advance_frame(&mut netplay, level, 0), FrameAction::Advance));
    let unconfirmed = FrameEvent::Polled { current_frame: 5, confirmed_frame: -1 };
    assert!(matches!(advance_frame(&mut netplay, unconfirmed, 0), FrameAction::Advance));
    assert!(netplay.requests.is_empty());
}

#[test]
fn an_ended_session_runs_on_without_inputs() {
    let mut netplay = session();
    netplay.disconnected = true;
    let event = FrameEvent::Polled { current_frame: 5, confirmed_frame: 4 };
    assert!(matches!(advance_frame(&mut netplay, event, 42), FrameAction::Done));
    match process_requests(&mut netplay, &[]) {
        RequestStep::Advance { inputs } => {
            assert_eq!(inputs, vec![(42, InputStatus::Disconnected); 4])
        }
        _ => panic!("no frame"),
    }
}

#[test]
fn what_the_session_asks_for_goes_behind_the_rest() {
    let mut netplay = session();
    netplay.requests.push_back(GgrsRequest::LoadGameState { cell: 'a', frame: 1 });
    let requests = vec![
        GgrsRequest::SaveGameState { cell: 'b', frame: 2 },
        GgrsRequest::AdvanceFrame { inputs: vec![] },
    ];
    let event = FrameEvent::Advanced { requests };
    assert!(matches!(advance_frame(&mut netplay, event, 0), FrameAction::Done));
    assert_eq!(netplay.requests.len(), 3);
    assert!(matches!(netplay.requests[0], GgrsRequest::LoadGameState { cell: 'a', frame: 1 }));
    assert!(matches!(netplay.requests[1], GgrsRequest::SaveGameState { cell: 'b', frame: 2 }));
    let threshold = FrameEvent::PredictionThreshold;
    assert!(matches!(advance_frame(&mut netplay, threshold, 0), FrameAction::Done));
    assert_eq!(netplay.requests.len(), 3);
}

#[test]
fn a_turn_polls_reads_and_begins_a_frame() {
    let mut netplay = session();
    let delay = NetplayMessage { name: "input_delay".to_string(), data: vec![0, 0, 0, 0, 0, 0, 0, 9] };
    let turn = process_netplay(
        &mut netplay,
        &vec![SessionEvent::DesyncDetected],
        vec![delay.encode()],
        20,
        16,
        vec![1],
        0,
    );
    assert_eq!(
        turn.effects,
        vec![Effect::Show(Notice::Desync), Effect::SetInputDelay { handle: 1, delay: 9 }]
    );
    match turn.action {
        Some(FrameAction::GiveInputs(inputs)) => {
            assert_eq!(inputs, vec![(1, InputSource::Controller)])
        }
        _ => panic!("no inputs"),
    }
    assert_eq!(netplay.input_delay, 9);
    assert!(netplay.received_data.is_empty());
}

#[test]
fn a_turn_stops_at_a_malformed_delay() {
    let mut netplay = session();
    let delay = NetplayMessage { name: "input_delay".to_string(), data: vec![9] };
    let turn = process_netplay(&mut netplay, &vec![], vec![delay.encode()], 20, 16, vec![1], 0);
    assert!(turn.effects.is_empty() && turn.action.is_none());
}

#[test]
fn throughput_is_sampled_once_a_second() {
    let mut netplay = session();
    assert_eq!(overlay_stats(&mut netplay, 999_999_999, 50, 60), None);
    assert_eq!((netplay.last_bytes_sent, netplay.last_bytes_recv), (0, 0));
    assert_eq!(
        overlay_stats(&mut netplay, 1_000_000_000, 50, 60),
        Some(Throughput { up: 50, down: 60 })
    );
    assert_eq!((netplay.last_bytes_sent, netplay.last_bytes_recv), (50, 60));
    assert_eq!(
        overlay_stats(&mut netplay, 2_000_000_000, 80, 10),
        Some(Throughput { up: 30, down: 0 })
    );
}

#[test]
fn samples_add_up() {
    let mut netplay = session();
    let mut total = 0;
    for sent in [100, 100, 250, 1000] {
        total += overlay_stats(&mut netplay, 1_000_000_000, sent, 0).unwrap().up;
    }
    assert_eq!(total, 1000);
}

#[test]
fn the_worst_figures_are_shown() {
    let stats = vec![
        None,
        Some(NetworkStats { ping: 40, local_frames_behind: -3 }),
        Some(NetworkStats { ping: 75, local_frames_behind: 2 }),
        Some(NetworkStats { ping: 10, local_frames_behind: 1 }),
    ];
    assert_eq!(worst_stats(&stats), WorstStats { ping: 75, behind: 2 });
    assert_eq!(worst_stats(&vec![None]), WorstStats { ping: 0, behind: 0 });
    let ahead = vec![Some(NetworkStats { ping: 1, local_frames_behind: -9 })];
    assert_eq!(worst_stats(&ahead), WorstStats { ping: 1, behind: 0 });
}

#[test]
fn the_overlay_line_reads_like_this() {
    let worst = WorstStats { ping: 105, behind: 2 };
    assert_eq!(
        overlay_line(&worst, 12, 1340, -4),
        "Ping: 105ms  Up: 12 kb/s  Down: 1340 kb/s  Lead: -4  Lag: 2"
    );
}

#[test]
fn numbers_in_decimal() {
    for n in [0u128, 9, 10, 12345678901234567890, u128::MAX] {
        let mut text = "n=".to_string();
        push_decimal(&mut text, n);
        assert_eq!(text, format!("n={}", n));
    }
    for n in [0i32, -1, 7, i32::MIN, i32::MAX] {
        let mut text = String::new();
        push_signed(&mut text, n);
        assert_eq!(text, format!("{}", n));
    }
}

#[test]
fn notices_read_like_this() {
    let all = [
        (
            Notice::Connecting,
            "Connecting to netplay peers...\nPlease wait...",
            MessageLength::Short,
        ),
        (
            Notice::StillConnecting(12),
            "Still connecting to 12 netplay peer(s)...\nPlease wait...",
            MessageLength::Short,
        ),
        (Notice::InputDelay(2), "Input delay: 2", MessageLength::VeryShort),
        (
            Notice::SessionEnded,
            "Player disconnected, session has ended",
            MessageLength::Long,
        ),
        (Notice::LostConnection, "Lost connection to peer(s)", MessageLength::Long),
        (Notice::Desync, "Desync detected", MessageLength::Long),
    ];
    for (notice, text, length) in all {
        assert_eq!(notice.text(), text);
        assert_eq!(notice.length(), length);
    }
}
