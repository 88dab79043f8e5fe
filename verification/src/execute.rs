//! Running a command: the time it gets, how its output is cut, and the answer.

use vstd::prelude::*;

use crate::error::{internal, ApiError, ErrorView};
use crate::number::{decimal, u64_decimal};
use crate::outside::{from_utf8_lossy, utf8_lossy};
use crate::text::{chars_of, concat2, concat_strs, concat_texts, string_between, view_result};

verus! {

/// A command to run.
#[derive(Debug)]
pub struct ExecuteRequest {
    /// The command line.
    pub command: String,
    /// How many seconds it gets.
    pub timeout: Option<u64>,
}

/// What a command did.
#[derive(Debug)]
pub struct ExecuteResponse {
    /// The standard output.
    pub stdout: String,
    /// The standard error.
    pub stderr: String,
    /// The exit code; 124 where the command ran out of time.
    pub exit_code: i32,
    /// Whether the command ran out of time.
    pub timed_out: bool,
}

/// What a command did.
pub struct ExecuteView {
    /// The standard output.
    pub stdout: Seq<char>,
    /// The standard error.
    pub stderr: Seq<char>,
    /// The exit code.
    pub exit_code: i32,
    /// Whether the command ran out of time.
    pub timed_out: bool,
}

impl View for ExecuteResponse {
    type V = ExecuteView;

    open spec fn view(&self) -> ExecuteView {
        ExecuteView {
            stdout: self.stdout@,
            stderr: self.stderr@,
            exit_code: self.exit_code,
            timed_out: self.timed_out,
        }
    }
}

/// `s` cut to `max` characters, with a note of how many more there were.
pub open spec fn capped(s: Seq<char>, max: nat) -> Seq<char> {
    if s.len() > max {
        concat_texts(
            seq![
                s.take(max as int),
                "\n...[truncated: "@,
                decimal((s.len() - max) as nat),
                " more bytes]\n"@,
            ],
        )
    } else {
        s
    }
}

/// `s` cut to `max` characters.
pub fn cap(s: &str, max: usize) -> (r: String)
    ensures
        r@ == capped(s@, max as nat),
{
    let cs = chars_of(s);
    if cs.len() > max {
        let head = string_between(cs.as_slice(), 0, max);
        assert(head@ =~= s@.take(max as int));
        let more = u64_decimal((cs.len() - max) as u64);
        let parts: [&str; 4] = [
            head.as_str(),
            "\n...[truncated: ",
            more.as_str(),
            " more bytes]\n",
        ];
        let r = concat_strs(parts.as_slice());
        assert(parts@.map_values(|p: &str| p@) =~= seq![
            s@.take(max as int),
            "\n...[truncated: "@,
            decimal((s@.len() - max) as nat),
            " more bytes]\n"@,
        ]);
        r
    } else {
        s.to_owned()
    }
}

/// What is within the cap is left alone, and what is cut keeps its beginning.
pub proof fn law_cap_keeps_head(s: Seq<char>, max: nat)
    ensures
        s.len() <= max ==> capped(s, max) == s,
        s.len() > max ==> s.take(max as int).is_prefix_of(capped(s, max)),
{
    if s.len() > max {
        let note = seq![
            "\n...[truncated: "@,
            decimal((s.len() - max) as nat),
            " more bytes]\n"@,
        ];
        let head = s.take(max as int);
        let whole = seq![head] + note;
        lemma_concat_first(whole);
        assert(whole =~= seq![
            head,
            "\n...[truncated: "@,
            decimal((s.len() - max) as nat),
            " more bytes]\n"@,
        ]);
    }
}

proof fn lemma_concat_first(parts: Seq<Seq<char>>)
    requires
        parts.len() > 0,
    ensures
        parts[0].is_prefix_of(concat_texts(parts)),
    decreases parts.len(),
{
    if parts.len() == 1 {
        assert(parts.drop_last() =~= seq![]);
        assert(concat_texts(parts.drop_last()) =~= seq![]);
        assert(concat_texts(parts) =~= parts[0]);
        assert(parts[0].take(parts[0].len() as int) =~= parts[0]);
    } else {
        lemma_concat_first(parts.drop_last());
        let a = concat_texts(parts.drop_last());
        assert(concat_texts(parts) == a + parts.last());
        assert((a + parts.last()).take(parts[0].len() as int) =~= a.take(parts[0].len() as int));
    }
}

/// How many seconds a command gets: what was asked for or the default, at least
/// one, and at most `max`.
pub open spec fn seconds_allowed(asked: Option<u64>, default: u64, max: u64) -> u64 {
    let n = match asked {
        Some(n) => n,
        None => default,
    };
    if n < 1 {
        1
    } else if n > max {
        max
    } else {
        n
    }
}

/// How many seconds a command gets.
pub fn timeout_secs(asked: Option<u64>, default: u64, max: u64) -> (r: u64)
    requires
        max >= 1,
    ensures
        r == seconds_allowed(asked, default, max),
        1 <= r <= max,
{
    let n: u64 = match asked {
        Some(n) => n,
        None => default,
    };
    if n < 1 {
        1
    } else if n > max {
        max
    } else {
        n
    }
}

/// How the run of a command ended.
#[derive(Debug)]
pub enum RunOutcome {
    /// The shell could not be started, with this message.
    NotStarted(String),
    /// The command ended; an output that could not be read is missing, and so is
    /// the exit code of a command that a signal ended.
    Ended(Option<Vec<u8>>, Option<Vec<u8>>, Option<i32>),
    /// The command ended, but waiting for it failed with this message.
    NotReaped(String),
    /// The command ran out of time.
    TimedOut,
}

/// How the run of a command ended.
pub enum RunOutcomeView {
    /// The shell could not be started.
    NotStarted(Seq<char>),
    /// The command ended.
    Ended(Option<Seq<u8>>, Option<Seq<u8>>, Option<i32>),
    /// Waiting for the command failed.
    NotReaped(Seq<char>),
    /// The command ran out of time.
    TimedOut,
}

/// The bytes of an output.
pub open spec fn opt_bytes(o: Option<Vec<u8>>) -> Option<Seq<u8>> {
    match o {
        Some(b) => Some(b@),
        None => None,
    }
}

impl View for RunOutcome {
    type V = RunOutcomeView;

    open spec fn view(&self) -> RunOutcomeView {
        match *self {
            RunOutcome::NotStarted(m) => RunOutcomeView::NotStarted(m@),
            RunOutcome::Ended(o, e, c) => RunOutcomeView::Ended(opt_bytes(o), opt_bytes(e), c),
            RunOutcome::NotReaped(m) => RunOutcomeView::NotReaped(m@),
            RunOutcome::TimedOut => RunOutcomeView::TimedOut,
        }
    }
}

/// An output as text, cut to `max` characters; a missing one is empty.
pub open spec fn output_text(o: Option<Seq<u8>>, max: nat) -> Seq<char> {
    match o {
        Some(b) => capped(utf8_lossy(b), max),
        None => capped(seq![], max),
    }
}

/// The answer to a command.
pub open spec fn execute_answer(outcome: RunOutcomeView, max: nat) -> Result<ExecuteView, ErrorView> {
    match outcome {
        RunOutcomeView::NotStarted(m) => Ok(
            ExecuteView {
                stdout: ""@,
                stderr: "runtime error: "@ + m,
                exit_code: 1,
                timed_out: false,
            },
        ),
        RunOutcomeView::Ended(out, err, code) => Ok(
            ExecuteView {
                stdout: output_text(out, max),
                stderr: output_text(err, max),
                exit_code: match code {
                    Some(c) => c,
                    None => 0,
                },
                timed_out: false,
            },
        ),
        RunOutcomeView::NotReaped(m) => Err(internal("failed to reap command: "@ + m)),
        RunOutcomeView::TimedOut => Ok(
            ExecuteView { stdout: ""@, stderr: ""@, exit_code: 124, timed_out: true },
        ),
    }
}

/// An output as text, cut to `max` characters.
fn output_string(o: Option<Vec<u8>>, max: usize) -> (r: String)
    ensures
        r@ == output_text(opt_bytes(o), max as nat),
{
    let text = match o {
        Some(b) => from_utf8_lossy(b.as_slice()),
        None => {
            let none = String::new();
            assert(none@ =~= seq![]);
            none
        },
    };
    cap(text.as_str(), max)
}

/// The answer to a command.
pub fn run_command(outcome: RunOutcome, max: usize) -> (r: Result<ExecuteResponse, ApiError>)
    ensures
        view_result(r) == execute_answer(outcome@, max as nat),
{
    match outcome {
        RunOutcome::NotStarted(m) => Ok(
            ExecuteResponse {
                stdout: "".to_owned(),
                stderr: concat2("runtime error: ", m.as_str()),
                exit_code: 1,
                timed_out: false,
            },
        ),
        RunOutcome::Ended(out, err, code) => {
            let exit_code: i32 = match code {
                Some(c) => c,
                None => 0,
            };
            Ok(
                ExecuteResponse {
                    stdout: output_string(out, max),
                    stderr: output_string(err, max),
                    exit_code,
                    timed_out: false,
                },
            )
        },
        RunOutcome::NotReaped(m) => Err(
            ApiError::Internal(concat2("failed to reap command: ", m.as_str())),
        ),
        RunOutcome::TimedOut => Ok(
            ExecuteResponse {
                stdout: "".to_owned(),
                stderr: "".to_owned(),
                exit_code: 124,
                timed_out: true,
            },
        ),
    }
}

/// Only a command that ran out of time is reported as such.
pub proof fn law_timeout_reported(outcome: RunOutcomeView, max: nat)
    ensures
        (execute_answer(outcome, max) matches Ok(v) && v.timed_out) <==> outcome is TimedOut,
{
}

/// What a command printed is what is answered, whatever its exit code: an output of
/// at most `max` characters in full, a longer one cut to its first `max` characters
/// and followed by a note of how many more there were. The exit code is the
/// command's own, zero where a signal ended it.
pub proof fn law_output_kept(
    out: Option<Seq<u8>>,
    err: Option<Seq<u8>>,
    code: Option<i32>,
    max: nat,
)
    ensures
        execute_answer(RunOutcomeView::Ended(out, err, code), max) is Ok,
        ({
            let v = execute_answer(RunOutcomeView::Ended(out, err, code), max)->Ok_0;
            &&& !v.timed_out
            &&& code matches Some(c) ==> v.exit_code == c
            &&& code is None ==> v.exit_code == 0
            &&& shows_output(v.stdout, out, max)
            &&& shows_output(v.stderr, err, max)
        }),
{
    if out is Some {
        law_cap_exact(utf8_lossy(out->0), max);
    }
    if err is Some {
        law_cap_exact(utf8_lossy(err->0), max);
    }
    let none = Seq::<char>::empty();
    assert(capped(none, max) == none);
}

/// The text is what an output shows: nothing of one that could not be read, all of
/// a short one, and the beginning of a long one with a note.
pub open spec fn shows_output(text: Seq<char>, output: Option<Seq<u8>>, max: nat) -> bool {
    match output {
        None => text.len() == 0,
        Some(b) => {
            let all = utf8_lossy(b);
            &&& all.len() <= max ==> text == all
            &&& all.len() > max ==> text == all.take(max as int) + "\n...[truncated: "@ + decimal(
                (all.len() - max) as nat,
            ) + " more bytes]\n"@
        },
    }
}

/// A text within the cap is left alone; what is cut keeps its first `max`
/// characters, and the note behind them says how many are missing.
pub proof fn law_cap_exact(s: Seq<char>, max: nat)
    ensures
        s.len() <= max ==> capped(s, max) == s,
        s.len() > max ==> capped(s, max) == s.take(max as int) + "\n...[truncated: "@ + decimal(
            (s.len() - max) as nat,
        ) + " more bytes]\n"@,
{
    if s.len() > max {
        let (a, b, c, d) = (
            s.take(max as int),
            "\n...[truncated: "@,
            decimal((s.len() - max) as nat),
            " more bytes]\n"@,
        );
        let none = Seq::<Seq<char>>::empty();
        crate::text::lemma_concat_push(none, a);
        crate::text::lemma_concat_push(none.push(a), b);
        crate::text::lemma_concat_push(none.push(a).push(b), c);
        crate::text::lemma_concat_push(none.push(a).push(b).push(c), d);
        assert(none.push(a).push(b).push(c).push(d) =~= seq![a, b, c, d]);
        assert(concat_texts(none) + a =~= a);
    }
}

/// Two commands that printed the same are answered with the same output, however
/// they ended; the answer differs in the exit code alone.
pub proof fn law_code_changes_nothing_else(
    out: Option<Seq<u8>>,
    err: Option<Seq<u8>>,
    x: Option<i32>,
    y: Option<i32>,
    max: nat,
)
    ensures
        ({
            let a = execute_answer(RunOutcomeView::Ended(out, err, x), max)->Ok_0;
            let b = execute_answer(RunOutcomeView::Ended(out, err, y), max)->Ok_0;
            a.stdout == b.stdout && a.stderr == b.stderr && a.timed_out == b.timed_out
        }),
{
}

/// A command that ran out of time shows no output and the code 124; one that could
/// not be started shows why and the code 1; one that could not be waited for is an
/// error of the server.
pub proof fn law_other_ends(m: Seq<char>, max: nat)
    ensures
        execute_answer(RunOutcomeView::TimedOut, max) matches Ok(v) && v.exit_code == 124
            && v.timed_out && v.stdout.len() == 0 && v.stderr.len() == 0,
        execute_answer(RunOutcomeView::NotStarted(m), max) matches Ok(v) && v.exit_code == 1
            && !v.timed_out && v.stdout.len() == 0 && v.stderr == "runtime error: "@ + m,
        execute_answer(RunOutcomeView::NotReaped(m), max) matches Err(e) && e.status == 500
            && e.detail == "failed to reap command: "@ + m,
{
    reveal_strlit("");
}

/// A command gets the seconds that were asked for where they are within the
/// limits, the nearest limit where they are not, and the default, held to the same
/// limits, where nothing was asked for.
pub proof fn law_seconds(n: u64, default: u64, max: u64)
    requires
        max >= 1,
    ensures
        1 <= n <= max ==> seconds_allowed(Some(n), default, max) == n,
        n > max ==> seconds_allowed(Some(n), default, max) == max,
        n == 0 ==> seconds_allowed(Some(n), default, max) == 1,
        seconds_allowed(None, n, max) == seconds_allowed(Some(n), default, max),
{
}

} // verus!
