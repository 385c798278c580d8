//! File transfers (push/pull) with live progress. adb prints per-file
//! progress like `[ 45%] /sdcard/foo` while it copies; each chunk of its
//! output is scanned for those markers, a progress report is due whenever
//! the percentage changes, and a completion report follows at the end.
use vstd::prelude::*;

use crate::error::error_message;
use crate::text::{
    chars_of, decode_lossy, opt_view, parse_u8, parse_unsigned, push_chars, string_of, trim_chars,
    trim_white, utf8_lossy,
};

verus! {

/// Progress of one transfer.
pub struct Progress {
    pub id: String,
    pub percent: u8,
    pub direction: String,
    pub name: String,
}

/// The end of one transfer.
pub struct Done {
    pub id: String,
    pub success: bool,
    pub error: Option<String>,
}

/// What the running adb process reported.
pub enum TransferEvent {
    Stdout(Vec<u8>),
    Stderr(Vec<u8>),
    /// The process ended, with its exit code where it had one.
    Terminated(Option<i32>),
    /// Anything else the process runner reports.
    Other,
}

/// What a transfer has seen so far.
pub struct TransferState {
    /// The last percentage reported (0 before any).
    pub last_pct: u8,
    /// Everything adb wrote to its error output.
    pub stderr_buf: String,
    /// Whether adb ended with exit code 0.
    pub exit_ok: bool,
}

/// The regular expression of adb's progress markers: `[`, optional white
/// space, the digits of the percentage (the first group), `%]`.
pub const PERCENT_PATTERN: &'static str = "\\[\\s*(\\d+)%\\]";

/// Whether `regex::Regex::new` accepts the pattern.
pub uninterp spec fn regex_valid(pattern: Seq<char>) -> bool;

/// The first group of each match that `regex::Regex::captures_iter` yields
/// for the pattern on the text, in the order of the matches (found left to
/// right, without overlap); `None` for a match in which the group took no
/// part.
pub uninterp spec fn regex_groups(pattern: Seq<char>, text: Seq<char>) -> Seq<Option<Seq<char>>>;

/// Compiles `pattern` with `regex::Regex::new` and returns, for each match
/// of `captures_iter` on `text` in order, its first group (`Captures::get`
/// of 1); `None` where the pattern does not compile (its error is dropped).
/// The contract claims that the compilation succeeds exactly where
/// `regex_valid` holds, and that the groups are the ones `regex_groups`
/// names.
#[verifier::external_body]
fn match_groups(pattern: &str, text: &str) -> (r: Option<Vec<Option<String>>>)
    ensures
        r is Some <==> regex_valid(pattern@),
        r matches Some(v) ==> v@.map_values(|g: Option<String>| opt_view(g)) == regex_groups(pattern@, text@),
{
    match regex::Regex::new(pattern) {
        Ok(re) => {
            let mut groups: Vec<Option<String>> = Vec::new();
            for c in re.captures_iter(text) {
                groups.push(c.get(1).map(|m| m.as_str().to_string()));
            }
            Some(groups)
        },
        Err(_) => None,
    }
}

/// The percentage of the last progress marker in a chunk of adb's output,
/// where it reads as a `u8`.
pub open spec fn marker_percent(text: Seq<char>) -> Option<u8> {
    if regex_valid(PERCENT_PATTERN@) {
        let gs = regex_groups(PERCENT_PATTERN@, text);
        if gs.len() == 0 {
            None
        } else {
            match gs.last() {
                Some(g) => match parse_unsigned(g, 255) {
                    Some(v) => Some(v as u8),
                    None => None,
                },
                None => None,
            }
        }
    } else {
        None
    }
}

/// The percentage of the last progress marker in `text`.
pub fn last_percent(text: &str) -> (r: Option<u8>)
    ensures
        r == marker_percent(text@),
{
    match match_groups(PERCENT_PATTERN, text) {
        Some(mut groups) => {
            let ghost gv = groups@;
            match groups.pop() {
                Some(Some(g)) => {
                    proof {
                        assert(gv.map_values(|g: Option<String>| opt_view(g)).last() == opt_view(gv.last()));
                    }
                    parse_u8(&chars_of(g.as_str()))
                },
                Some(None) => {
                    proof {
                        assert(gv.map_values(|g: Option<String>| opt_view(g)).last() == opt_view(gv.last()));
                    }
                    None
                },
                None => None,
            }
        },
        None => None,
    }
}

pub open spec fn state_view(s: TransferState) -> (u8, Seq<char>, bool) {
    (s.last_pct, s.stderr_buf@, s.exit_ok)
}

/// How one event changes the state, and the percentage to report, if any.
pub open spec fn step_spec(s: (u8, Seq<char>, bool), e: TransferEvent) -> ((u8, Seq<char>, bool), Option<u8>) {
    match e {
        TransferEvent::Stdout(b) => match marker_percent(utf8_lossy(b@)) {
            Some(p) if p != s.0 => ((p, s.1, s.2), Some(p)),
            _ => (s, None),
        },
        TransferEvent::Stderr(b) => {
            let buf = s.1 + utf8_lossy(b@);
            match marker_percent(utf8_lossy(b@)) {
                Some(p) if p != s.0 => ((p, buf, s.2), Some(p)),
                _ => ((s.0, buf, s.2), None),
            }
        },
        TransferEvent::Terminated(code) => ((s.0, s.1, code == Some(0i32)), None),
        TransferEvent::Other => (s, None),
    }
}

/// Law: a percentage is reported only when it differs from the last one,
/// and then becomes the last one; the error output only grows; only the end
/// of the process decides success.
pub proof fn lemma_step_facts(s: (u8, Seq<char>, bool), e: TransferEvent)
    ensures
        ({
            let (n, r) = step_spec(s, e);
            &&& r matches Some(p) ==> p != s.0 && n.0 == p
            &&& r is None ==> n.0 == s.0
            &&& n.1.take(s.1.len() as int) == s.1
            &&& !(e is Terminated) ==> n.2 == s.2
        }),
{
    let (n, r) = step_spec(s, e);
    assert(n.1.take(s.1.len() as int) =~= s.1);
}

/// The output that an event carries, if it carries any.
pub open spec fn event_bytes(e: TransferEvent) -> Option<Seq<u8>> {
    match e {
        TransferEvent::Stdout(b) => Some(b@),
        TransferEvent::Stderr(b) => Some(b@),
        _ => None,
    }
}

/// The percentage that an event's output carries: that of its last marker.
pub open spec fn event_percent(e: TransferEvent) -> Option<u8> {
    match event_bytes(e) {
        Some(b) => marker_percent(utf8_lossy(b)),
        None => None,
    }
}

/// Law: every change of percentage is reported, up or down (a new file of
/// a folder starts again from a low percentage): output whose last marker
/// reads `p`, with `p` not the last percentage reported, reports `p`, which
/// becomes the last one; an event with no marker, or with the last
/// percentage again, reports nothing and leaves the last one.
pub proof fn lemma_step_reports_each_change(s: (u8, Seq<char>, bool), e: TransferEvent)
    ensures
        (event_percent(e) is Some && event_percent(e).unwrap() != s.0) ==> (step_spec(s, e).1 == event_percent(e)
            && step_spec(s, e).0.0 == event_percent(e).unwrap()),
        event_percent(e) == Some(s.0) ==> step_spec(s, e).1 is None && step_spec(s, e).0.0 == s.0,
        event_percent(e) is None ==> step_spec(s, e).1 is None && step_spec(s, e).0.0 == s.0,
{
}

/// Law: the percentage of a chunk is read from its last marker: where the
/// pattern compiles and the last match's group holds the decimal digits of
/// `n`, the chunk's percentage is `n`, whatever the earlier markers hold; a
/// chunk with no marker has none.
pub proof fn lemma_marker_is_last(text: Seq<char>, n: u8)
    requires
        regex_valid(PERCENT_PATTERN@),
    ensures
        (regex_groups(PERCENT_PATTERN@, text).len() > 0 && regex_groups(PERCENT_PATTERN@, text).last() == Some(
            crate::mtp::decimal(n as nat),
        )) ==> marker_percent(text) == Some(n),
        regex_groups(PERCENT_PATTERN@, text).len() == 0 ==> marker_percent(text) is None,
{
    let d = crate::mtp::decimal(n as nat);
    crate::mtp::lemma_decimal_value(n as nat);
    assert(crate::text::is_digit(d[0]));
    assert(parse_unsigned(d, 255) == Some(n as nat));
}

/// The result of the whole transfer: success where adb exited with 0, else
/// an adb error with what it wrote to its error output.
pub open spec fn outcome_message(s: (u8, Seq<char>, bool)) -> Option<Seq<char>> {
    if s.2 {
        None
    } else if trim_white(s.1).len() == 0 {
        Some("transfer failed"@)
    } else {
        Some(trim_white(s.1))
    }
}

impl TransferState {
    /// The state before adb has reported anything.
    pub fn new() -> (s: TransferState)
        ensures
            state_view(s) == (0u8, Seq::<char>::empty(), false),
    {
        TransferState { last_pct: 0, stderr_buf: String::new(), exit_ok: false }
    }

    /// Takes one event into account; returns the percentage to report, if
    /// the event carries a marker whose percentage differs from the last.
    pub fn step(&mut self, event: TransferEvent) -> (r: Option<u8>)
        ensures
            (state_view(*final(self)), r) == step_spec(state_view(*old(self)), event),
    {
        match event {
            TransferEvent::Stdout(bytes) => {
                let text = decode_lossy(bytes.as_slice());
                match last_percent(text.as_str()) {
                    Some(p) => {
                        if p != self.last_pct {
                            self.last_pct = p;
                            Some(p)
                        } else {
                            None
                        }
                    },
                    None => None,
                }
            },
            TransferEvent::Stderr(bytes) => {
                let text = decode_lossy(bytes.as_slice());
                let tc = chars_of(text.as_str());
                push_chars(&mut self.stderr_buf, &tc);
                match last_percent(text.as_str()) {
                    Some(p) => {
                        if p != self.last_pct {
                            self.last_pct = p;
                            Some(p)
                        } else {
                            None
                        }
                    },
                    None => None,
                }
            },
            TransferEvent::Terminated(code) => {
                self.exit_ok = match code {
                    Some(c) => c == 0,
                    None => false,
                };
                None
            },
            TransferEvent::Other => None,
        }
    }

    /// The result of the transfer once adb has finished.
    pub fn outcome(&self) -> (r: Result<(), crate::error::Error>)
        ensures
            match outcome_message(state_view(*self)) {
                None => r is Ok,
                Some(m) => r matches Err(crate::error::Error::Adb(e)) && e@ == m,
            },
    {
        if self.exit_ok {
            return Ok(());
        }
        let t = trim_chars(&chars_of(self.stderr_buf.as_str()));
        if t.len() == 0 {
            Err(crate::error::Error::Adb(String::from_str("transfer failed")))
        } else {
            Err(crate::error::Error::Adb(string_of(&t)))
        }
    }

    /// The percentage to report at the end: 100 after a successful run.
    pub fn final_percent(&self) -> (r: Option<u8>)
        ensures
            r == (if self.exit_ok { Some(100u8) } else { None }),
    {
        if self.exit_ok {
            Some(100)
        } else {
            None
        }
    }
}

/// A progress report.
pub fn progress_report(id: &str, percent: u8, direction: &str, name: &str) -> (p: Progress)
    ensures
        p.id@ == id@,
        p.percent == percent,
        p.direction@ == direction@,
        p.name@ == name@,
{
    Progress {
        id: String::from_str(id),
        percent,
        direction: String::from_str(direction),
        name: String::from_str(name),
    }
}

/// The completion report of a transfer with the given result.
pub fn done_report(id: &str, result: &Result<(), crate::error::Error>) -> (d: Done)
    ensures
        d.id@ == id@,
        d.success == result is Ok,
        match result {
            Ok(()) => d.error is None,
            Err(e) => d.error matches Some(m) && m@ == error_message(*e),
        },
{
    let error = match result {
        Ok(()) => None,
        Err(e) => Some(e.message()),
    };
    Done { id: String::from_str(id), success: result.is_ok(), error }
}

} // verus!
