use eurydice::protocol::{
    build_batch, classify_line, enqueue_commands, parse_ack, read_response, LineKind,
    PushStatus, ResponseCollector, ResponseOutcome,
};
use eurydice::selector::SelectedTrack;

fn lines(xs: &[&str]) -> Vec<String> {
    xs.iter().map(|s| s.to_string()).collect()
}

#[test]
fn ack_line_parses_into_parts() {
    let r = parse_ack("ACK [50@1] {play} song doesn't exist").expect("a failure line");
    assert_eq!(r.code, "50");
    assert_eq!(r.command_index, "1");
    assert_eq!(r.command, "play");
    assert_eq!(r.message, "song doesn't exist");
}

#[test]
fn ack_line_with_empty_command_and_message() {
    let r = parse_ack("ACK [5@0] {} ").expect("a failure line");
    assert_eq!(r.code, "5");
    assert_eq!(r.command_index, "0");
    assert_eq!(r.command, "");
    assert_eq!(r.message, "");
}

#[test]
fn ack_text_inside_a_value_is_not_a_failure() {
    assert!(parse_ack("Title: ACK [50@1] {play} nope").is_none());
    assert!(parse_ack("Genre: BLACK [metal").is_none());
    assert!(parse_ack("ACK [").is_none());
    assert!(parse_ack("ACK [x@1] {play} msg").is_none());
    assert!(parse_ack("ACK [50@1] {play}").is_none());
}

#[test]
fn classify_success_failure_and_body() {
    assert!(matches!(classify_line("OK"), LineKind::Success));
    assert!(matches!(classify_line("OK "), LineKind::Body));
    assert!(matches!(
        classify_line("ACK [2@0] {add} bad uri"),
        LineKind::Failure(_)
    ));
    assert!(matches!(classify_line("file: a.flac"), LineKind::Body));
}

#[test]
fn response_with_marker_text_in_body_succeeds() {
    let ls = lines(&["Title: ACK [50@1] {play} gotcha", "Artist: Some Band", "OK"]);
    let (outcome, used) = read_response(&ls);
    assert_eq!(used, 3);
    match outcome {
        ResponseOutcome::Success { body } => {
            assert_eq!(body, lines(&["Title: ACK [50@1] {play} gotcha", "Artist: Some Band"]));
        }
        _ => panic!("expected success"),
    }
}

#[test]
fn response_stops_at_first_terminal() {
    let ls = lines(&["a: 1", "OK", "b: 2", "OK"]);
    let (outcome, used) = read_response(&ls);
    assert_eq!(used, 2);
    assert!(matches!(outcome, ResponseOutcome::Success { .. }));
}

#[test]
fn response_failure_carries_the_ack() {
    let ls = lines(&["a: 1", "ACK [50@0] {status} broken", "c: 3"]);
    let (outcome, used) = read_response(&ls);
    assert_eq!(used, 2);
    match outcome {
        ResponseOutcome::Failure { ack } => {
            assert_eq!(ack.message, "broken");
            assert_eq!(ack.command, "status");
        }
        _ => panic!("expected failure"),
    }
}

#[test]
fn response_without_terminal_is_incomplete() {
    let ls = lines(&["a: 1", "b: 2"]);
    let (outcome, used) = read_response(&ls);
    assert_eq!(used, 2);
    assert!(matches!(outcome, ResponseOutcome::Incomplete { .. }));
}

#[test]
fn collector_accumulates_until_terminal() {
    let mut c = ResponseCollector::new();
    assert!(matches!(c.push_line("volume: 40"), PushStatus::More));
    assert!(matches!(c.push_line("state: stop"), PushStatus::More));
    assert!(matches!(c.push_line("OK"), PushStatus::Complete));
    assert_eq!(c.into_body(), lines(&["volume: 40", "state: stop"]));
}

#[test]
fn collector_reports_failure() {
    let mut c = ResponseCollector::new();
    assert!(matches!(c.push_line("a: 1"), PushStatus::More));
    match c.push_line("ACK [50@1] {play} no") {
        PushStatus::Failed(a) => assert_eq!(a.code, "50"),
        _ => panic!("expected failure"),
    }
}

#[test]
fn batch_is_one_write_with_markers_and_status() {
    let cmds = lines(&["add \"a.flac\"", "add \"b.flac\""]);
    let batch = build_batch(&cmds);
    assert_eq!(
        batch,
        "command_list_begin\nadd \"a.flac\"\nadd \"b.flac\"\nstatus\ncommand_list_end\n"
    );
}

#[test]
fn empty_batch_still_queries_status() {
    let batch = build_batch(&Vec::new());
    assert_eq!(batch, "command_list_begin\nstatus\ncommand_list_end\n");
}

#[test]
fn enqueue_commands_quote_each_path() {
    let tracks = vec![
        SelectedTrack {
            artist: "A".to_string(),
            path: "x/y.flac".to_string(),
            length_seconds: 10,
        },
        SelectedTrack {
            artist: "B".to_string(),
            path: "z.mp3".to_string(),
            length_seconds: 20,
        },
    ];
    let cmds = enqueue_commands(&tracks);
    assert_eq!(cmds, lines(&["add \"x/y.flac\"", "add \"z.mp3\""]));
}

#[test]
fn ack_keeps_long_digit_runs_verbatim() {
    let r = parse_ack("ACK [123456789012345678901234567890@007] {seek} out of range")
        .expect("a failure line");
    assert_eq!(r.code, "123456789012345678901234567890");
    assert_eq!(r.command_index, "007");
}
