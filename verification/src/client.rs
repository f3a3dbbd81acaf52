//! The browser-side controller as a state machine: it decides what the page
//! shows and which requests go out; the page itself performs them.
//!
//! Polling follows this client's own toggle replies: the timer starts when a
//! reply says that tracking is on and stops when a reply says that it is off.
//! A toggle made from another session is not noticed until this client
//! toggles again.

use crate::score::ScoreEntry;
use vstd::prelude::*;
use vstd::string::StringExecFns;

verus! {

/// Milliseconds between two polls of the scores.
pub const POLL_INTERVAL_MS: u32 = 1000;

/// The decimal digit `d` as a character.
pub open spec fn digit_char(d: nat) -> char
    recommends
        d < 10,
{
    if d == 0 {
        '0'
    } else if d == 1 {
        '1'
    } else if d == 2 {
        '2'
    } else if d == 3 {
        '3'
    } else if d == 4 {
        '4'
    } else if d == 5 {
        '5'
    } else if d == 6 {
        '6'
    } else if d == 7 {
        '7'
    } else if d == 8 {
        '8'
    } else {
        '9'
    }
}

/// The decimal digits of `n`, most significant first, without leading zeros.
pub open spec fn digits(n: nat) -> Seq<char>
    decreases n,
{
    if n < 10 {
        seq![digit_char(n)]
    } else {
        digits(n / 10).push(digit_char(n % 10))
    }
}

/// `n` in decimal, with a minus sign where it is negative.
pub open spec fn decimal(n: int) -> Seq<char> {
    if n < 0 {
        seq!['-'] + digits((-n) as nat)
    } else {
        digits(n as nat)
    }
}

/// The line shown for one camera.
pub open spec fn score_line(entry: ScoreEntry) -> Seq<char> {
    "Camera "@ + decimal(entry.camera_id as int) + ": "@ + decimal(entry.ball_count as int)
        + " balls"@
}

/// The markup shown for a list of scores: one line per camera, joined by
/// line breaks.
pub open spec fn score_markup(entries: Seq<ScoreEntry>) -> Seq<char>
    decreases entries.len(),
{
    if entries.len() == 0 {
        Seq::empty()
    } else if entries.len() == 1 {
        score_line(entries[0])
    } else {
        score_markup(entries.drop_last()) + "<br>"@ + score_line(entries.last())
    }
}

/// The text of the toggle button for a tracking state.
pub open spec fn label_for(active: bool) -> Seq<char> {
    if active {
        "Stop Tracking"@
    } else {
        "Start Tracking"@
    }
}

/// What the poll timer has to do after a toggle reply.
#[derive(Clone, Copy, Debug, PartialEq, Eq, Structural)]
pub enum Timer {
    /// Leave the timer as it is.
    Keep,
    /// Start firing every `POLL_INTERVAL_MS` milliseconds.
    Start,
    /// Cancel the running timer.
    Stop,
}

/// What the page does after a toggle reply.
#[derive(Clone, Copy, Debug, PartialEq, Eq)]
pub struct Toggled {
    /// The new text of the toggle button.
    pub label: &'static str,
    /// What becomes of the poll timer.
    pub timer: Timer,
}

/// How a poll of the scores ended.
#[derive(Debug, PartialEq, Eq)]
pub enum Fetched {
    /// The request itself failed.
    FetchFailed,
    /// The reply's body could not be read as JSON.
    BodyFailed,
    /// The JSON was not a list of scores.
    DecodeFailed,
    /// The scores arrived.
    Scores(Vec<ScoreEntry>),
}

/// What the score display shows after a poll.
#[derive(Debug, PartialEq, Eq)]
pub enum Display {
    /// Plain text.
    Text(String),
    /// Markup.
    Html(String),
}

/// What the score display shows for the outcome `fetched` of a poll.
pub open spec fn display_for(fetched: Fetched) -> (bool, Seq<char>) {
    match fetched {
        Fetched::FetchFailed => (false, "Error fetching scores"@),
        Fetched::BodyFailed => (false, "Error awaiting JSON"@),
        Fetched::DecodeFailed => (false, "Error deserializing scores"@),
        Fetched::Scores(entries) => (true, score_markup(entries@)),
    }
}

impl Display {
    /// Whether the display is markup, and its characters.
    pub open spec fn content(&self) -> (bool, Seq<char>) {
        match *self {
            Display::Text(text) => (false, text@),
            Display::Html(markup) => (true, markup@),
        }
    }
}

/// The controller's state.
#[derive(Clone, Copy, Debug, PartialEq, Eq, Structural)]
pub struct Client {
    /// Whether the server said, at the last toggle, that tracking is on. The
    /// poll timer runs exactly while it is.
    pub tracking: bool,
}

/// The text of the toggle button for a tracking state.
pub fn button_label(active: bool) -> (label: &'static str)
    ensures
        label@ == label_for(active),
{
    if active {
        "Stop Tracking"
    } else {
        "Start Tracking"
    }
}

/// Appends the decimal digits of `n` to `out`.
fn push_digits(out: &mut String, n: u64)
    ensures
        final(out)@ == old(out)@ + digits(n as nat),
    decreases n,
{
    if n >= 10 {
        push_digits(out, n / 10);
    }
    let d: u64 = n % 10;
    proof {
        reveal_strlit("0");
        reveal_strlit("1");
        reveal_strlit("2");
        reveal_strlit("3");
        reveal_strlit("4");
        reveal_strlit("5");
        reveal_strlit("6");
        reveal_strlit("7");
        reveal_strlit("8");
        reveal_strlit("9");
    }
    let text: &'static str = if d == 0 {
        "0"
    } else if d == 1 {
        "1"
    } else if d == 2 {
        "2"
    } else if d == 3 {
        "3"
    } else if d == 4 {
        "4"
    } else if d == 5 {
        "5"
    } else if d == 6 {
        "6"
    } else if d == 7 {
        "7"
    } else if d == 8 {
        "8"
    } else {
        "9"
    };
    assert(text@ == seq![digit_char(d as nat)]);
    out.append(text);
    assert(out@ == old(out)@ + digits(n as nat));
}

/// Appends `n` in decimal to `out`.
fn push_decimal(out: &mut String, n: i64)
    requires
        n > i64::MIN,
    ensures
        final(out)@ == old(out)@ + decimal(n as int),
{
    if n < 0 {
        proof {
            reveal_strlit("-");
        }
        out.append("-");
        push_digits(out, (-n) as u64);
        assert(out@ == old(out)@ + decimal(n as int));
    } else {
        push_digits(out, n as u64);
    }
}

/// Appends the line of `entry` to `out`.
fn push_line(out: &mut String, entry: ScoreEntry)
    ensures
        final(out)@ == old(out)@ + score_line(entry),
{
    out.append("Camera ");
    push_decimal(out, entry.camera_id as i64);
    out.append(": ");
    push_decimal(out, entry.ball_count as i64);
    out.append(" balls");
    assert(out@ == old(out)@ + score_line(entry));
}

/// The markup for a list of scores: `Camera <id>: <count> balls` for each
/// entry, in order, joined by `<br>`.
pub fn render_scores(entries: &Vec<ScoreEntry>) -> (markup: String)
    ensures
        markup@ == score_markup(entries@),
{
    let mut markup = String::new();
    let mut i: usize = 0;
    while i < entries.len()
        invariant
            i <= entries.len(),
            markup@ == score_markup(entries@.take(i as int)),
        decreases entries.len() - i,
    {
        let ghost before = markup@;
        if i > 0 {
            markup.append("<br>");
        }
        push_line(&mut markup, entries[i]);
        proof {
            let next = entries@.take(i + 1);
            assert(next.drop_last() == entries@.take(i as int));
            assert(next.last() == entries[i as int]);
            if i == 0 {
                assert(before + score_line(entries[0]) == score_line(entries[0]));
            }
        }
        i += 1;
    }
    assert(entries@.take(i as int) == entries@);
    markup
}

/// Starts the controller: tracking is off, no timer runs, and the button
/// invites to start.
pub fn start() -> (begin: (Client, &'static str))
    ensures
        begin.0 == (Client { tracking: false }),
        begin.1@ == label_for(false),
{
    (Client { tracking: false }, button_label(false))
}

impl Client {
    /// Takes the server's reply to a toggle request: `Some(state)` when the
    /// reply was a boolean, `None` when it was anything else, which counts as
    /// "off". The button shows the new state; the timer starts when tracking
    /// went on and stops when it went off.
    pub fn toggled(&mut self, reply: Option<bool>) -> (page: Toggled)
        ensures
            final(self).tracking == (reply == Some(true)),
            page.label@ == label_for(final(self).tracking),
            page.timer == if final(self).tracking == old(self).tracking {
                Timer::Keep
            } else if final(self).tracking {
                Timer::Start
            } else {
                Timer::Stop
            },
    {
        let active = match reply {
            Some(state) => state,
            None => false,
        };
        let timer = if active == self.tracking {
            Timer::Keep
        } else if active {
            Timer::Start
        } else {
            Timer::Stop
        };
        self.tracking = active;
        Toggled { label: button_label(active), timer }
    }

    /// Whether a firing of the poll timer fetches the scores: only while
    /// tracking is on.
    pub fn timer_fired(&self) -> (fetch: bool)
        ensures
            fetch == self.tracking,
    {
        self.tracking
    }
}

/// What the score display shows for the outcome of one poll: the rendered
/// scores, or the message of the step that failed.
pub fn poll_scores(fetched: &Fetched) -> (shown: Display)
    ensures
        shown.content() == display_for(*fetched),
{
    match fetched {
        Fetched::FetchFailed => Display::Text(String::from_str("Error fetching scores")),
        Fetched::BodyFailed => Display::Text(String::from_str("Error awaiting JSON")),
        Fetched::DecodeFailed => Display::Text(String::from_str("Error deserializing scores")),
        Fetched::Scores(entries) => Display::Html(render_scores(entries)),
    }
}

} // verus!
