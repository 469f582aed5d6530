//! Wire-protocol framing: the line grammar that terminates a response
//! (the success marker, or the structured failure line), response
//! consumption with whole-line terminal matching, and command batching.

use vstd::prelude::*;
use vstd::string::*;

use crate::text::find_char;
use crate::text::first_index_of;
use crate::text::line_views;

verus! {

/// A structured failure reported by the server on a whole line of the form
/// `ACK [<code>@<index>] {<command>} <message>`. The code and the command
/// index are kept as the digit runs the server printed.
pub struct AckInfo {
    pub code: String,
    pub command_index: String,
    pub command: String,
    pub message: String,
}

/// A decimal digit.
pub open spec fn is_digit(c: char) -> bool {
    '0' <= c && c <= '9'
}

/// Every character of `s` is a decimal digit.
pub open spec fn all_digits(s: Seq<char>) -> bool {
    forall|i: int| 0 <= i < s.len() ==> is_digit(s[i])
}

/// Position of the `@` that ends the error code.
pub open spec fn ack_at(s: Seq<char>) -> int {
    first_index_of(s, 5, '@')
}

/// Position of the `]` that ends the command index.
pub open spec fn ack_rbracket(s: Seq<char>) -> int {
    first_index_of(s, ack_at(s) + 1, ']')
}

/// Position of the `}` that ends the command name.
pub open spec fn ack_rbrace(s: Seq<char>) -> int {
    first_index_of(s, ack_rbracket(s) + 3, '}')
}

/// The whole-line failure grammar: `ACK [<code>@<index>] {<command>}
/// <message>`, where code and index are non-empty digit runs, the command
/// holds no `}`, and the message (possibly empty) is whatever follows the
/// single space after `}`. Matching this anywhere but as the whole line is
/// deliberately not a failure: metadata values can contain the marker text.
pub open spec fn is_ack_line(s: Seq<char>) -> bool {
    let a = ack_at(s);
    let b = ack_rbracket(s);
    let c = ack_rbrace(s);
    &&& s.len() >= 5
    &&& s.take(5) == "ACK ["@
    &&& 5 < a < s.len()
    &&& all_digits(s.subrange(5, a))
    &&& a + 1 < b < s.len()
    &&& all_digits(s.subrange(a + 1, b))
    &&& b + 2 < s.len()
    &&& s[b + 1] == ' '
    &&& s[b + 2] == '{'
    &&& c < s.len()
    &&& c + 1 < s.len()
    &&& s[c + 1] == ' '
}

/// The digit run between `[` and `@`.
pub open spec fn ack_code(s: Seq<char>) -> Seq<char> {
    s.subrange(5, ack_at(s))
}

/// The digit run between `@` and `]`.
pub open spec fn ack_index(s: Seq<char>) -> Seq<char> {
    s.subrange(ack_at(s) + 1, ack_rbracket(s))
}

/// The command name between `{` and `}`.
pub open spec fn ack_command(s: Seq<char>) -> Seq<char> {
    s.subrange(ack_rbracket(s) + 3, ack_rbrace(s))
}

/// The message after `} `; empty when the line ends there.
pub open spec fn ack_message(s: Seq<char>) -> Seq<char> {
    s.subrange(ack_rbrace(s) + 2, s.len() as int)
}

/// `a` carries exactly the four parts of the failure line `s`.
pub open spec fn ack_matches(a: AckInfo, s: Seq<char>) -> bool {
    &&& a.code@ == ack_code(s)
    &&& a.command_index@ == ack_index(s)
    &&& a.command@ == ack_command(s)
    &&& a.message@ == ack_message(s)
}

/// The whole-line success marker.
pub open spec fn is_success_line(s: Seq<char>) -> bool {
    s == "OK"@
}

/// A line that ends a response: the success marker or a failure line.
pub open spec fn is_terminal_line(s: Seq<char>) -> bool {
    is_success_line(s) || is_ack_line(s)
}

fn check_digits(s: &str, from: usize, to: usize) -> (b: bool)
    requires
        from <= to <= s@.len(),
    ensures
        b == all_digits(s@.subrange(from as int, to as int)),
{
    let ghost part = s@.subrange(from as int, to as int);
    let mut i: usize = from;
    while i < to
        invariant
            from <= i <= to <= s@.len(),
            part == s@.subrange(from as int, to as int),
            forall|j: int| 0 <= j < i - from ==> is_digit(part[j]),
        decreases to - i,
    {
        let c = s.get_char(i);
        proof {
            assert(part[i - from] == s@[i as int]);
        }
        if !('0' <= c && c <= '9') {
            proof {
                assert(!is_digit(part[i - from]));
            }
            return false;
        }
        i += 1;
    }
    true
}

fn line_is_ok(line: &str) -> (b: bool)
    ensures
        b == is_success_line(line@),
{
    proof {
        reveal_strlit("OK");
    }
    let n = line.unicode_len();
    if n != 2 {
        return false;
    }
    let r = line.get_char(0) == 'O' && line.get_char(1) == 'K';
    proof {
        if r {
            assert(line@ =~= "OK"@);
        }
    }
    r
}

/// Parses a whole line against the failure grammar: the four parts when it
/// matches, nothing otherwise.
pub fn parse_ack(line: &str) -> (r: Option<AckInfo>)
    ensures
        r is Some <==> is_ack_line(line@),
        (r matches Some(a) ==> ack_matches(a, line@)),
{
    proof {
        reveal_strlit("ACK [");
    }
    let n = line.unicode_len();
    if n < 5 {
        return None;
    }
    let prefix_ok = line.get_char(0) == 'A' && line.get_char(1) == 'C' && line.get_char(2) == 'K'
        && line.get_char(3) == ' ' && line.get_char(4) == '[';
    if !prefix_ok {
        proof {
            let t = line@.take(5);
            assert(t[0] == line@[0] && t[1] == line@[1] && t[2] == line@[2] && t[3] == line@[3]
                && t[4] == line@[4]);
            assert(t != "ACK ["@);
        }
        return None;
    }
    proof {
        assert(line@.take(5) =~= "ACK ["@);
    }
    let a = find_char(line, 5, '@');
    if a >= n || a == 5 {
        return None;
    }
    if !check_digits(line, 5, a) {
        return None;
    }
    let b = find_char(line, a + 1, ']');
    if b >= n || b == a + 1 {
        return None;
    }
    if !check_digits(line, a + 1, b) {
        return None;
    }
    if !(b < n - 2 && line.get_char(b + 1) == ' ' && line.get_char(b + 2) == '{') {
        return None;
    }
    let c = find_char(line, b + 3, '}');
    if c >= n {
        return None;
    }
    if !(c < n - 1 && line.get_char(c + 1) == ' ') {
        return None;
    }
    let code = line.substring_char(5, a).to_owned();
    let command_index = line.substring_char(a + 1, b).to_owned();
    let command = line.substring_char(b + 3, c).to_owned();
    let message = line.substring_char(c + 2, n).to_owned();
    Some(AckInfo { code, command_index, command, message })
}

/// How a single received line is read: the success marker ends the
/// response, a whole-line failure match ends it with the structured error,
/// and any other line, whatever text it contains, is body data.
pub enum LineKind {
    Success,
    Failure(AckInfo),
    Body,
}

/// Classifies one whole received line (without its trailing newline).
pub fn classify_line(line: &str) -> (k: LineKind)
    ensures
        k is Success <==> is_success_line(line@),
        k is Failure <==> (!is_success_line(line@) && is_ack_line(line@)),
        k is Body <==> (!is_success_line(line@) && !is_ack_line(line@)),
        (k matches LineKind::Failure(a) ==> ack_matches(a, line@)),
{
    if line_is_ok(line) {
        LineKind::Success
    } else {
        match parse_ack(line) {
            Some(a) => LineKind::Failure(a),
            None => LineKind::Body,
        }
    }
}

/// A failure marker buried inside a value is body data: a line that does
/// not even start with the marker prefix, and is not the success marker,
/// never terminates a response.
pub proof fn lemma_embedded_marker_is_body(line: Seq<char>)
    requires
        !is_success_line(line),
        line.len() >= 5 ==> line.take(5) != "ACK ["@,
    ensures
        !is_terminal_line(line),
{
}

/// What consuming received lines up to the first terminal line yields:
/// the accumulated body on success, the failure line on a whole-line
/// failure match, or the body so far when the lines ran out.
pub ghost enum ConsumeView {
    Success { body: Seq<Seq<char>> },
    Failure { line: Seq<char> },
    Incomplete { body: Seq<Seq<char>> },
}

/// Prefixes one body line onto a consumption outcome.
pub open spec fn prepend_line(l: Seq<char>, cv: ConsumeView) -> ConsumeView {
    match cv {
        ConsumeView::Success { body } => ConsumeView::Success { body: seq![l] + body },
        ConsumeView::Failure { line } => ConsumeView::Failure { line },
        ConsumeView::Incomplete { body } => ConsumeView::Incomplete { body: seq![l] + body },
    }
}

/// Prefixes a run of body lines onto a consumption outcome.
pub open spec fn prepend_lines(b: Seq<Seq<char>>, cv: ConsumeView) -> ConsumeView {
    match cv {
        ConsumeView::Success { body } => ConsumeView::Success { body: b + body },
        ConsumeView::Failure { line } => ConsumeView::Failure { line },
        ConsumeView::Incomplete { body } => ConsumeView::Incomplete { body: b + body },
    }
}

/// Response consumption: lines before the first terminal line are body
/// data; the first terminal line decides success or failure and ends the
/// response. Every sub-response of a batch runs together into one body,
/// ended once by the single terminal line of the whole batch.
pub open spec fn consume_response(lines: Seq<Seq<char>>) -> ConsumeView
    decreases lines.len(),
{
    if lines.len() == 0 {
        ConsumeView::Incomplete { body: Seq::empty() }
    } else if is_success_line(lines[0]) {
        ConsumeView::Success { body: Seq::empty() }
    } else if is_ack_line(lines[0]) {
        ConsumeView::Failure { line: lines[0] }
    } else {
        prepend_line(lines[0], consume_response(lines.drop_first()))
    }
}

/// How many lines consumption examines: everything up to and including
/// the first terminal line, or all of them when no terminal line comes.
pub open spec fn consumed_count(lines: Seq<Seq<char>>) -> int
    decreases lines.len(),
{
    if lines.len() == 0 {
        0
    } else if is_terminal_line(lines[0]) {
        1
    } else {
        1 + consumed_count(lines.drop_first())
    }
}

/// A fully consumed response: the body lines on success, the structured
/// failure, or the body collected so far when the connection gave out
/// before a terminal line.
pub enum ResponseOutcome {
    Success { body: Vec<String> },
    Failure { ack: AckInfo },
    Incomplete { body: Vec<String> },
}

proof fn lemma_prepend_shift(b: Seq<Seq<char>>, l: Seq<char>, cv: ConsumeView)
    ensures
        prepend_lines(b, prepend_line(l, cv)) == prepend_lines(b.push(l), cv),
{
    match cv {
        ConsumeView::Success { body } => {
            assert(b + (seq![l] + body) =~= b.push(l) + body);
        },
        ConsumeView::Failure { line } => {
        },
        ConsumeView::Incomplete { body } => {
            assert(b + (seq![l] + body) =~= b.push(l) + body);
        },
    }
}

/// Consumes a response from `lines`: body lines accumulate until the
/// first whole-line terminal, which alone decides the outcome. Also
/// returns how many lines were taken, so a caller holding further
/// responses in the same buffer knows where the next one starts.
pub fn read_response(lines: &Vec<String>) -> (r: (ResponseOutcome, usize))
    ensures
        r.1 == consumed_count(line_views(lines@)),
        (match r.0 {
            ResponseOutcome::Success { body } => consume_response(line_views(lines@))
                == (ConsumeView::Success { body: line_views(body@) }),
            ResponseOutcome::Failure { ack } => consume_response(line_views(lines@)) matches
                ConsumeView::Failure { line } && ack_matches(ack, line),
            ResponseOutcome::Incomplete { body } => consume_response(line_views(lines@))
                == (ConsumeView::Incomplete { body: line_views(body@) }),
        }),
{
    let ghost lv = line_views(lines@);
    let mut body: Vec<String> = Vec::new();
    let mut i: usize = 0;
    proof {
        assert(lv.skip(0) =~= lv);
        assert(line_views(body@) =~= Seq::<Seq<char>>::empty());
    }
    while i < lines.len()
        invariant
            i <= lines.len(),
            lv == line_views(lines@),
            line_views(body@) == lv.take(i as int),
            consume_response(lv) == prepend_lines(lv.take(i as int), consume_response(lv.skip(i as int))),
            consumed_count(lv) == i + consumed_count(lv.skip(i as int)),
        decreases lines.len() - i,
    {
        let ghost rest = lv.skip(i as int);
        proof {
            assert(rest.len() == lv.len() - i);
            assert(rest[0] == lv[i as int]);
        }
        match classify_line(lines[i].as_str()) {
            LineKind::Success => {
                proof {
                    assert(consume_response(rest) == (ConsumeView::Success {
                        body: Seq::<Seq<char>>::empty(),
                    }));
                    assert(lv.take(i as int) + Seq::<Seq<char>>::empty() =~= lv.take(i as int));
                }
                return (ResponseOutcome::Success { body }, i + 1);
            },
            LineKind::Failure(ack) => {
                proof {
                    assert(consume_response(rest) == (ConsumeView::Failure { line: lv[i as int] }));
                }
                return (ResponseOutcome::Failure { ack }, i + 1);
            },
            LineKind::Body => {
                let ghost prev = line_views(body@);
                body.push(lines[i].clone());
                proof {
                    assert(consume_response(rest) == prepend_line(
                        lv[i as int],
                        consume_response(rest.drop_first()),
                    ));
                    assert(rest.drop_first() =~= lv.skip(i + 1));
                    lemma_prepend_shift(
                        lv.take(i as int),
                        lv[i as int],
                        consume_response(lv.skip(i + 1)),
                    );
                    assert(lv.take(i as int).push(lv[i as int]) =~= lv.take(i + 1));
                    assert(line_views(body@) =~= prev.push(lv[i as int]));
                }
                i += 1;
            },
        }
    }
    proof {
        assert(lv.skip(lv.len() as int) =~= Seq::<Seq<char>>::empty());
        assert(lv.take(lv.len() as int) + Seq::<Seq<char>>::empty() =~= lv.take(lv.len() as int));
        assert(line_views(body@) =~= lv);
    }
    (ResponseOutcome::Incomplete { body }, lines.len())
}

/// Streaming form of response consumption for a caller that receives one
/// line at a time: body lines accumulate until a terminal line arrives.
pub struct ResponseCollector {
    pub body: Vec<String>,
    pub done: bool,
}

/// What one pushed line did to a collector.
pub enum PushStatus {
    Complete,
    Failed(AckInfo),
    More,
}

impl ResponseCollector {
    /// An empty collector, ready for the first line of a response.
    pub fn new() -> (c: ResponseCollector)
        ensures
            c.body@.len() == 0,
            !c.done,
    {
        ResponseCollector { body: Vec::new(), done: false }
    }

    /// Feeds one whole received line (without its trailing newline). The
    /// first terminal line finishes the collector; anything else, whatever
    /// text it contains, extends the body.
    pub fn push_line(&mut self, line: &str) -> (st: PushStatus)
        requires
            !old(self).done,
        ensures
            final(self).done == is_terminal_line(line@),
            st is Complete <==> is_success_line(line@),
            st is Failed <==> (!is_success_line(line@) && is_ack_line(line@)),
            st is More <==> !is_terminal_line(line@),
            (st matches PushStatus::Failed(a) ==> ack_matches(a, line@)),
            is_terminal_line(line@) ==> final(self).body@ == old(self).body@,
            !is_terminal_line(line@) ==> line_views(final(self).body@) == line_views(
                old(self).body@,
            ).push(line@),
    {
        match classify_line(line) {
            LineKind::Success => {
                self.done = true;
                PushStatus::Complete
            },
            LineKind::Failure(a) => {
                self.done = true;
                PushStatus::Failed(a)
            },
            LineKind::Body => {
                let ghost prev = line_views(self.body@);
                self.body.push(line.to_owned());
                proof {
                    assert(line_views(self.body@) =~= prev.push(line@));
                }
                PushStatus::More
            },
        }
    }

    /// Hands out the accumulated body once the response is finished.
    pub fn into_body(self) -> (r: Vec<String>)
        ensures
            r == self.body,
    {
        self.body
    }
}

/// The items joined with the separator between consecutive items.
pub open spec fn join_seqs(items: Seq<Seq<char>>, sep: Seq<char>) -> Seq<char>
    decreases items.len(),
{
    if items.len() == 0 {
        Seq::empty()
    } else if items.len() == 1 {
        items[0]
    } else {
        items[0] + sep + join_seqs(items.drop_first(), sep)
    }
}

/// Relies on `itertools::Itertools::join`: the items' text with the
/// separator between consecutive items, and nothing else.
#[verifier::external_body]
pub(crate) fn join_with(items: &Vec<String>, sep: &str) -> (r: String)
    ensures
        r@ == join_seqs(line_views(items@), sep@),
{
    itertools::Itertools::join(&mut items.iter(), sep)
}

/// The one string a whole batch is written as: the commands between the
/// batch-begin and batch-end markers, with a trailing status query so the
/// caller can read playback state from the same response.
pub open spec fn batch_spec(cmds: Seq<Seq<char>>) -> Seq<char> {
    if cmds.len() == 0 {
        "command_list_begin\n"@ + "status\ncommand_list_end\n"@
    } else {
        "command_list_begin\n"@ + join_seqs(cmds, "\n"@) + "\n"@ + "status\ncommand_list_end\n"@
    }
}

/// Builds the single write for a batch of newline-free commands. However
/// many commands there are, the whole batch is one string, sent in one
/// write, and is answered by one terminal line for the entire sequence.
pub fn build_batch(commands: &Vec<String>) -> (r: String)
    ensures
        r@ == batch_spec(line_views(commands@)),
{
    let mut out = String::from_str("command_list_begin\n");
    if commands.len() > 0 {
        let joined = join_with(commands, "\n");
        out.append(joined.as_str());
        out.append("\n");
    }
    out.append("status\ncommand_list_end\n");
    out
}

/// The enqueue command for one track path, quoted as the server expects.
pub fn add_command(path: &str) -> (r: String)
    ensures
        r@ == "add \""@ + path@ + "\""@,
{
    let mut out = String::from_str("add \"");
    out.append(path);
    out.append("\"");
    out
}

/// The enqueue commands for a selected track list, in order.
pub open spec fn add_commands_spec(tracks: Seq<crate::selector::TrackView>) -> Seq<Seq<char>> {
    tracks.map_values(|t: crate::selector::TrackView| "add \""@ + t.path + "\""@)
}

/// Builds one enqueue command per selected track, in playlist order.
pub fn enqueue_commands(tracks: &Vec<crate::selector::SelectedTrack>) -> (r: Vec<String>)
    ensures
        line_views(r@) == add_commands_spec(crate::selector::track_views(tracks@)),
{
    let ghost tv = crate::selector::track_views(tracks@);
    let mut out: Vec<String> = Vec::new();
    let mut i: usize = 0;
    proof {
        assert(line_views(out@) =~= add_commands_spec(tv.take(0)));
    }
    while i < tracks.len()
        invariant
            i <= tracks.len(),
            tv == crate::selector::track_views(tracks@),
            line_views(out@) == add_commands_spec(tv.take(i as int)),
        decreases tracks.len() - i,
    {
        let ghost prev = line_views(out@);
        let cmd = add_command(tracks[i].path.as_str());
        out.push(cmd);
        proof {
            assert(line_views(out@) =~= prev.push("add \""@ + tv[i as int].path + "\""@));
            assert(tv.take(i + 1) =~= tv.take(i as int).push(tv[i as int]));
            assert(line_views(out@) =~= add_commands_spec(tv.take(i + 1)));
        }
        i += 1;
    }
    proof {
        assert(tv.take(tv.len() as int) =~= tv);
    }
    out
}

/// However many commands a well-formed batch held, consumption takes
/// exactly one terminal line: every consumed line before it is body data,
/// and consumption never looks past it. Lines run out only when no
/// terminal line came at all.
pub proof fn lemma_one_terminal_consumed(lines: Seq<Seq<char>>)
    ensures
        consumed_count(lines) <= lines.len(),
        forall|i: int| 0 <= i < consumed_count(lines) - 1 ==> !is_terminal_line(lines[i]),
        !(consume_response(lines) is Incomplete) ==> 0 < consumed_count(lines) && is_terminal_line(
            lines[consumed_count(lines) - 1],
        ),
        (consume_response(lines) is Incomplete) <==> (forall|i: int|
            0 <= i < lines.len() ==> !is_terminal_line(lines[i])),
    decreases lines.len(),
{
    if lines.len() == 0 {
    } else if is_terminal_line(lines[0]) {
    } else {
        lemma_one_terminal_consumed(lines.drop_first());
        assert forall|i: int| 0 <= i < consumed_count(lines) - 1 implies !is_terminal_line(
            lines[i],
        ) by {
            if i > 0 {
                assert(lines.drop_first()[i - 1] == lines[i]);
            }
        }
        if !(consume_response(lines) is Incomplete) {
            assert(lines.drop_first()[consumed_count(lines.drop_first()) - 1] == lines[consumed_count(
                lines,
            ) - 1]);
        }
        if (consume_response(lines) is Incomplete) {
            assert forall|i: int| 0 <= i < lines.len() implies !is_terminal_line(lines[i]) by {
                if i > 0 {
                    assert(lines.drop_first()[i - 1] == lines[i]);
                }
            }
        } else {
        }
        if (forall|i: int| 0 <= i < lines.len() ==> !is_terminal_line(lines[i])) {
            assert forall|i: int| 0 <= i < lines.drop_first().len() implies !is_terminal_line(
                lines.drop_first()[i],
            ) by {
                assert(lines.drop_first()[i] == lines[i + 1]);
            }
            assert(consume_response(lines.drop_first()) is Incomplete);
        }
    }
}

/// A response whose body lines merely contain failure-marker text inside
/// their values is still a success: when the first terminal line is the
/// success marker, consumption reports success with exactly the preceding
/// lines as the body.
pub proof fn lemma_marker_text_in_body_is_success(lines: Seq<Seq<char>>, k: int)
    requires
        0 <= k < lines.len(),
        is_success_line(lines[k]),
        forall|i: int| 0 <= i < k ==> !is_terminal_line(lines[i]),
    ensures
        consume_response(lines) == (ConsumeView::Success { body: lines.take(k) }),
    decreases k,
{
    if k == 0 {
        assert(lines.take(0) =~= Seq::<Seq<char>>::empty());
    } else {
        assert(!is_terminal_line(lines[0]));
        assert forall|i: int| 0 <= i < k - 1 implies !is_terminal_line(lines.drop_first()[i]) by {
            assert(lines.drop_first()[i] == lines[i + 1]);
        }
        assert(lines.drop_first()[k - 1] == lines[k]);
        lemma_marker_text_in_body_is_success(lines.drop_first(), k - 1);
        assert(seq![lines[0]] + lines.drop_first().take(k - 1) =~= lines.take(k));
    }
}

} // verus!
