//! Session lifecycle and the decisions around it: handshake validation,
//! the change-notification step, and the resume policy applied after a
//! batched enqueue. The blocking reads and writes themselves live with
//! the caller that owns the connection; every decision about what was
//! read, and what to send next, is made here.

use vstd::prelude::*;
use vstd::string::*;

use crate::decoder::entry_views;
use crate::decoder::last_value;
use crate::protocol::AckInfo;
use crate::text::contains_seq;
use crate::text::contains_str;
use crate::text::line_views;
use crate::text::str_eq;

verus! {

/// The errors a session surfaces: a greeting without the expected marker
/// (fatal at startup), a structured whole-line failure from the server
/// (recoverable at the call site), or an I/O failure on the stream
/// (terminal for the session).
pub enum SessionError {
    Handshake(String),
    Protocol(AckInfo),
    ConnectionLost,
}

/// Session lifecycle: connecting moves through `Handshaking` to `Ready`;
/// any I/O error at any point moves to `Disconnected`, which is terminal.
pub enum SessionState {
    Disconnected,
    Handshaking,
    Ready,
}

/// The verified half of a session: its lifecycle state. The connection
/// itself, and the blocking reads on it, stay with the caller.
pub struct SessionCore {
    pub state: SessionState,
}

/// The token every acceptable greeting contains. The protocol is
/// version-agnostic: any greeting containing the marker is accepted, not
/// only an exact byte match, since server versions vary.
pub open spec fn greeting_marker() -> Seq<char> {
    "OK MPD"@
}

/// A greeting is acceptable exactly when it contains the marker token.
pub open spec fn greeting_ok(greeting: Seq<char>) -> bool {
    contains_seq(greeting, greeting_marker())
}

impl SessionCore {
    /// A session whose connection was just opened: the greeting line is
    /// still owed.
    pub fn connect_started() -> (s: SessionCore)
        ensures
            s.state is Handshaking,
    {
        SessionCore { state: SessionState::Handshaking }
    }

    /// Validates the greeting line: the session becomes ready exactly
    /// when the greeting contains the expected marker, and is otherwise
    /// disconnected with the offending greeting in the error.
    pub fn complete_handshake(&mut self, greeting: &str) -> (r: Result<(), SessionError>)
        requires
            old(self).state is Handshaking,
        ensures
            r is Ok <==> greeting_ok(greeting@),
            r is Ok ==> final(self).state is Ready,
            r is Err ==> final(self).state is Disconnected,
            (r matches Err(e) ==> e matches SessionError::Handshake(g) && g@ == greeting@),
    {
        if contains_str(greeting, "OK MPD") {
            self.state = SessionState::Ready;
            Ok(())
        } else {
            self.state = SessionState::Disconnected;
            Err(SessionError::Handshake(greeting.to_owned()))
        }
    }

    /// Records the loss of the connection; the session never reconnects
    /// by itself.
    pub fn connection_lost(&mut self)
        ensures
            final(self).state is Disconnected,
    {
        self.state = SessionState::Disconnected;
    }
}

/// The body the change-notification command answers with when the
/// watched player subsystem changed.
pub open spec fn player_change_body() -> Seq<Seq<char>> {
    seq!["changed: player"@]
}

/// Whether a change-notification response body reports a player change,
/// which tells the caller to fetch the current song again; any other body
/// means keep waiting.
pub fn player_changed(body: &Vec<String>) -> (r: bool)
    ensures
        r == (line_views(body@) == player_change_body()),
{
    if body.len() != 1 {
        proof {
            assert(line_views(body@).len() == body@.len());
        }
        return false;
    }
    let r = str_eq(body[0].as_str(), "changed: player");
    proof {
        if r {
            assert(line_views(body@) =~= player_change_body());
        } else {
            assert(line_views(body@)[0] == body@[0]@);
        }
    }
    r
}

/// What to do after a successful batched enqueue, read off the playback
/// state of the trailing status snapshot: start playback only when the
/// player reports it is stopped; an already active player, playing or
/// paused, is never interrupted. A snapshot with no parsable state is a
/// hard error: queue management cannot proceed without knowing the state.
pub enum ResumeDecision {
    StartPlayback,
    LeaveAlone,
    StateMissing,
}

/// The playback-state value of a decoded status snapshot.
pub open spec fn player_state_of(es: Seq<(Seq<char>, Seq<char>)>) -> Option<Seq<char>> {
    last_value(es, "state"@)
}

/// Applies the resume policy to a decoded status snapshot.
pub fn resume_decision(status: &Vec<(String, String)>) -> (r: ResumeDecision)
    ensures
        r is StartPlayback <==> player_state_of(entry_views(status@)) == Some("stop"@),
        r is StateMissing <==> player_state_of(entry_views(status@)) is None,
        r is LeaveAlone <==> (player_state_of(entry_views(status@)) is Some && player_state_of(
            entry_views(status@),
        ) != Some("stop"@)),
{
    match crate::decoder::get_last(status, "state") {
        Some(state) => {
            if str_eq(state.as_str(), "stop") {
                ResumeDecision::StartPlayback
            } else {
                ResumeDecision::LeaveAlone
            }
        },
        None => ResumeDecision::StateMissing,
    }
}

/// The command that starts playback at the head of the queue, issued
/// when the resume policy finds the player stopped after an enqueue.
pub fn play_first_command() -> (r: String)
    ensures
        r@ == "play 0\n"@,
{
    String::from_str("play 0\n")
}

/// The blocking watch command for one subsystem: the server holds the
/// response back until that subsystem changes, so the read on it is the
/// caller's one long suspension point.
pub fn idle_command(subsystem: &str) -> (r: String)
    ensures
        r@ == "idle "@ + subsystem@ + "\n"@,
{
    let mut out = String::from_str("idle ");
    out.append(subsystem);
    out.append("\n");
    out
}

} // verus!
