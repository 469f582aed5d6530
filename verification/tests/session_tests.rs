use eurydice::session::{
    play_first_command, player_changed, resume_decision, ResumeDecision, SessionCore,
    SessionError, SessionState,
};

fn entries(xs: &[(&str, &str)]) -> Vec<(String, String)> {
    xs.iter().map(|(k, v)| (k.to_string(), v.to_string())).collect()
}

#[test]
fn handshake_accepts_any_greeting_with_the_marker() {
    let mut s = SessionCore::connect_started();
    assert!(s.complete_handshake("OK MPD 0.23.5").is_ok());
    assert!(matches!(s.state, SessionState::Ready));
}

#[test]
fn handshake_rejects_a_foreign_greeting() {
    let mut s = SessionCore::connect_started();
    match s.complete_handshake("220 smtp.example.com ESMTP") {
        Err(SessionError::Handshake(g)) => assert_eq!(g, "220 smtp.example.com ESMTP"),
        _ => panic!("expected a handshake error"),
    }
    assert!(matches!(s.state, SessionState::Disconnected));
}

#[test]
fn connection_loss_is_terminal() {
    let mut s = SessionCore::connect_started();
    assert!(s.complete_handshake("OK MPD 0.24").is_ok());
    s.connection_lost();
    assert!(matches!(s.state, SessionState::Disconnected));
}

#[test]
fn player_change_is_recognized() {
    assert!(player_changed(&vec!["changed: player".to_string()]));
}

#[test]
fn other_subsystem_changes_keep_waiting() {
    assert!(!player_changed(&vec!["changed: mixer".to_string()]));
    assert!(!player_changed(&Vec::new()));
    assert!(!player_changed(&vec![
        "changed: player".to_string(),
        "changed: mixer".to_string()
    ]));
}

#[test]
fn stopped_player_gets_a_play_command() {
    let st = entries(&[("volume", "40"), ("state", "stop")]);
    assert!(matches!(resume_decision(&st), ResumeDecision::StartPlayback));
    assert_eq!(play_first_command(), "play 0\n");
}

#[test]
fn playing_player_is_left_alone() {
    let st = entries(&[("state", "play")]);
    assert!(matches!(resume_decision(&st), ResumeDecision::LeaveAlone));
}

#[test]
fn paused_player_is_left_alone() {
    let st = entries(&[("state", "pause")]);
    assert!(matches!(resume_decision(&st), ResumeDecision::LeaveAlone));
}

#[test]
fn missing_state_is_a_hard_error() {
    let st = entries(&[("volume", "40")]);
    assert!(matches!(resume_decision(&st), ResumeDecision::StateMissing));
}

#[test]
fn resume_reads_the_last_state_entry() {
    let st = entries(&[("state", "play"), ("state", "stop")]);
    assert!(matches!(resume_decision(&st), ResumeDecision::StartPlayback));
}

#[test]
fn handshake_marker_may_sit_anywhere_in_the_greeting() {
    let mut s = SessionCore::connect_started();
    assert!(s.complete_handshake("prefix OK MPD 99.9 suffix").is_ok());
}

#[test]
fn idle_command_names_the_subsystem() {
    assert_eq!(eurydice::session::idle_command("player"), "idle player\n");
}
