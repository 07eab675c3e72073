use vstd::prelude::*;
use vstd::slice::slice_subrange;

use crate::model::{Commit, CommitView, Signature, SignatureView, strings_view};
use crate::number::{all_digits, parse_i64, parse_i64_spec, push_decimal, decimal};
use crate::text::{
    append_str, chars_of, digit_value, find_char, has_prefix, index_of, is_sha, is_sha_chars, law_sha_is_forty_hex_digits,
    split_two_words, split_ws, string_of, strip_prefix, trim, trim_range, WordSplit,
};

verus! {

// ---------------------------------------------------------------------------
// Errors
// ---------------------------------------------------------------------------

#[verifier::external_type_specification]
#[verifier::external_body]
pub struct ExIoError(std::io::Error);

/// Why reading the log stopped.
#[derive(Debug)]
pub enum ParseError {
    /// Reading a line failed.
    Io(std::io::Error),
    /// The input is not in git's raw log format; `line` is the 1-based number
    /// of the line at which this was found.
    Malformed { line: usize, reason: String },
}

/// The mathematical content of a `ParseError`.
pub enum ParseErrorView {
    Io(std::io::Error),
    Malformed { line: nat, reason: Seq<char> },
}

impl View for ParseError {
    type V = ParseErrorView;

    open spec fn view(&self) -> ParseErrorView {
        match self {
            ParseError::Io(e) => ParseErrorView::Io(*e),
            ParseError::Malformed { line, reason } => ParseErrorView::Malformed {
                line: *line as nat,
                reason: reason@,
            },
        }
    }
}

/// What `{:?}` writes for a string: the string in double quotes with std's
/// escapes applied.
pub uninterp spec fn debug_quoted(s: Seq<char>) -> Seq<char>;

/// `<str as Debug>::fmt`, through `format!("{:?}", ..)`.
#[verifier::external_body]
fn debug_str(s: &str) -> (r: String)
    ensures
        r@ == debug_quoted(s@),
{
    format!("{:?}", s)
}

/// `<std::io::Error as Display>::fmt`, through `to_string`.
/// Nothing is stated of the text: it comes from the operating system.
#[verifier::external_body]
fn io_error_text(e: &std::io::Error) -> String {
    e.to_string()
}

/// What `ParseError::to_string` gives for a malformed-input error.
pub open spec fn malformed_text(line: nat, reason: Seq<char>) -> Seq<char> {
    "line "@ + decimal(line) + ": "@ + reason
}

impl ParseError {
    /// The error as text: `line N: reason`, or `io error: ...`.
    pub fn to_string(&self) -> (r: String)
        ensures
            match self@ {
                ParseErrorView::Malformed { line, reason } => r@ == malformed_text(line, reason),
                ParseErrorView::Io(_) => has_prefix(r@, "io error: "@),
            },
    {
        match self {
            ParseError::Io(e) => {
                let mut r = String::new();
                append_str(&mut r, "io error: ");
                let ghost head = r@;
                let t = io_error_text(e);
                append_str(&mut r, t.as_str());
                assert(r@.take(head.len() as int) =~= head);
                r
            },
            ParseError::Malformed { line, reason } => {
                let mut r = String::new();
                append_str(&mut r, "line ");
                push_decimal(&mut r, *line as u64);
                append_str(&mut r, ": ");
                append_str(&mut r, reason.as_str());
                r
            },
        }
    }
}

// ---------------------------------------------------------------------------
// Field syntax
// ---------------------------------------------------------------------------

/// Whether `s` is a git object id: forty hexadecimal digits.
pub fn is_hex_sha(s: &str) -> (r: bool)
    ensures
        r == is_sha(s@),
        r <==> (s@.len() == 40 && forall|i: int|
            0 <= i < s@.len() ==> ('0' <= #[trigger] s@[i] && s@[i] <= '9') || ('a' <= s@[i]
                && s@[i] <= 'f') || ('A' <= s@[i] && s@[i] <= 'F')),
{
    let c = chars_of(s);
    proof {
        law_sha_is_forty_hex_digits(s@);
    }
    is_sha_chars(c.as_slice())
}

/// Whether `line` opens a commit: `commit ` followed by an object id.
pub open spec fn is_commit_header_spec(line: Seq<char>) -> bool {
    has_prefix(line, "commit "@) && is_sha(line.skip("commit "@.len() as int))
}

fn is_commit_header(line: &[char]) -> (r: bool)
    ensures
        r == is_commit_header_spec(line@),
{
    match strip_prefix(line, "commit ") {
        Some(n) => {
            let rest = slice_subrange(line, n, line.len());
            is_sha_chars(rest)
        },
        None => false,
    }
}

/// The offset in minutes east of UTC that a `+hhmm` / `-hhmm` zone spells.
pub open spec fn tz_offset_spec(tz: Seq<char>) -> Option<i32> {
    if tz.len() == 5 && (tz[0] == '+' || tz[0] == '-') && all_digits(tz.skip(1)) {
        let hh = 10 * digit_value(tz[1]) + digit_value(tz[2]);
        let mm = 10 * digit_value(tz[3]) + digit_value(tz[4]);
        if mm < 60 {
            if tz[0] == '-' {
                Some((-(hh * 60 + mm)) as i32)
            } else {
                Some((hh * 60 + mm) as i32)
            }
        } else {
            None
        }
    } else {
        None
    }
}

/// Reads a `+hhmm` / `-hhmm` time zone as minutes east of UTC.
pub fn parse_tz_offset(tz: &str) -> (r: Option<i32>)
    ensures
        r == tz_offset_spec(tz@),
{
    let s = chars_of(tz);
    if s.len() != 5 {
        return None;
    }
    let sign: i32 = if s[0] == '+' {
        1
    } else if s[0] == '-' {
        -1
    } else {
        return None;
    };
    let mut i: usize = 1;
    while i < 5
        invariant
            s@ == tz@,
            s@.len() == 5,
            1 <= i <= 5,
            forall|j: int| 1 <= j < i ==> crate::text::is_digit_char(#[trigger] s@[j]),
        decreases 5 - i,
    {
        if !('0' <= s[i] && s[i] <= '9') {
            assert(!crate::text::is_digit_char(tz@.skip(1)[i - 1]));
            return None;
        }
        i = i + 1;
    }
    assert(all_digits(tz@.skip(1))) by {
        assert forall|j: int| 0 <= j < 4 implies crate::text::is_digit_char(#[trigger] tz@.skip(1)[j]) by {
            assert(tz@.skip(1)[j] == s@[j + 1]);
        }
    }
    let hh: i32 = 10 * (s[1] as i32 - '0' as i32) + (s[2] as i32 - '0' as i32);
    let mm: i32 = 10 * (s[3] as i32 - '0' as i32) + (s[4] as i32 - '0' as i32);
    if mm >= 60 {
        return None;
    }
    Some(sign * (hh * 60 + mm))
}


// ---------------------------------------------------------------------------
// Author and committer lines
// ---------------------------------------------------------------------------

/// What can be wrong with an author or committer line.
pub enum SignatureIssue {
    MissingOpenBracket,
    MissingCloseBracket,
    BracketsOutOfOrder,
    MissingName,
    MissingTimestamp,
    MissingTimezone,
    TrailingData,
    InvalidTimestamp(Seq<char>),
    InvalidTimezone(Seq<char>),
}

/// The reason text for an author or committer line (`field` names which).
pub open spec fn signature_issue_text(field: Seq<char>, issue: SignatureIssue) -> Seq<char> {
    match issue {
        SignatureIssue::MissingOpenBracket => field + " line missing '<'"@,
        SignatureIssue::MissingCloseBracket => field + " line missing '>'"@,
        SignatureIssue::BracketsOutOfOrder => field + " line has '>' before '<'"@,
        SignatureIssue::MissingName => field + " line is missing a name"@,
        SignatureIssue::MissingTimestamp => field + " line is missing a timestamp"@,
        SignatureIssue::MissingTimezone => field + " line is missing a timezone"@,
        SignatureIssue::TrailingData => field + " line has unexpected trailing data"@,
        SignatureIssue::InvalidTimestamp(ts) => field + " line has an invalid timestamp "@
            + debug_quoted(ts),
        SignatureIssue::InvalidTimezone(tz) => field + " line has an invalid timezone "@
            + debug_quoted(tz),
    }
}

/// `Name <email> timestamp zone`: the name is what precedes the first `<`,
/// trimmed, and must not be empty; the email lies between the first `<` and the
/// first `>`, which must come after it; after the `>` come exactly two words,
/// a decimal timestamp and a `+hhmm` / `-hhmm` zone.
pub open spec fn signature_spec(line: Seq<char>) -> Result<SignatureView, SignatureIssue> {
    match find_char(line, '<') {
        None => Err(SignatureIssue::MissingOpenBracket),
        Some(lt) => match find_char(line, '>') {
            None => Err(SignatureIssue::MissingCloseBracket),
            Some(gt) => if gt < lt {
                Err(SignatureIssue::BracketsOutOfOrder)
            } else {
                let name = trim(line.take(lt as int));
                let words = split_ws(line.skip(gt as int + 1));
                if name.len() == 0 {
                    Err(SignatureIssue::MissingName)
                } else if words.len() == 0 {
                    Err(SignatureIssue::MissingTimestamp)
                } else if words.len() == 1 {
                    Err(SignatureIssue::MissingTimezone)
                } else if words.len() > 2 {
                    Err(SignatureIssue::TrailingData)
                } else {
                    match parse_i64_spec(words[0]) {
                        None => Err(SignatureIssue::InvalidTimestamp(words[0])),
                        Some(timestamp) => match tz_offset_spec(words[1]) {
                            None => Err(SignatureIssue::InvalidTimezone(words[1])),
                            Some(tz_offset_minutes) => Ok(
                                SignatureView {
                                    name,
                                    email: line.subrange(lt as int + 1, gt as int),
                                    timestamp,
                                    tz_offset_minutes,
                                },
                            ),
                        },
                    }
                }
            },
        },
    }
}

/// `field` followed by the literal `suffix`.
fn field_text(field: &str, suffix: &str) -> (r: String)
    ensures
        r@ == field@ + suffix@,
{
    let mut r = String::new();
    append_str(&mut r, field);
    append_str(&mut r, suffix);
    r
}

/// `field` followed by `suffix` and the debug-quoted characters `s[from..to]`.
fn field_text_quoted(field: &str, suffix: &str, s: &[char], from: usize, to: usize) -> (r: String)
    requires
        from <= to <= s@.len(),
    ensures
        r@ == field@ + suffix@ + debug_quoted(s@.subrange(from as int, to as int)),
{
    let mut r = field_text(field, suffix);
    let word = string_of(s, from, to);
    let quoted = debug_str(word.as_str());
    append_str(&mut r, quoted.as_str());
    r
}

/// Reads the part of an author or committer line after its keyword; on
/// failure the result is the reason text.
fn parse_signature(field: &str, line: &[char]) -> (r: Result<Signature, String>)
    ensures
        match (r, signature_spec(line@)) {
            (Ok(sig), Ok(v)) => sig@ == v,
            (Err(reason), Err(issue)) => reason@ == signature_issue_text(field@, issue),
            _ => false,
        },
{
    proof {
        crate::text::lemma_find_char(line@, '<');
        crate::text::lemma_find_char(line@, '>');
    }
    let lt = match index_of(line, '<') {
        Some(i) => i,
        None => {
            return Err(field_text(field, " line missing '<'"));
        },
    };
    let gt = match index_of(line, '>') {
        Some(i) => i,
        None => {
            return Err(field_text(field, " line missing '>'"));
        },
    };
    if gt < lt {
        return Err(field_text(field, " line has '>' before '<'"));
    }
    assert(line@.subrange(0, lt as int) =~= line@.take(lt as int));
    let name = trim_range(line, 0, lt);
    assert(name@ == trim(line@.take(lt as int)));
    if name.as_str().is_empty() {
        return Err(field_text(field, " line is missing a name"));
    }
    let n = line.len();
    assert(gt < n);
    let email = string_of(line, lt + 1, gt);
    match split_two_words(line, gt + 1) {
        WordSplit::NoWords => Err(field_text(field, " line is missing a timestamp")),
        WordSplit::OneWord => Err(field_text(field, " line is missing a timezone")),
        WordSplit::MoreWords => Err(field_text(field, " line has unexpected trailing data")),
        WordSplit::TwoWords(a, b, c, d) => {
            let timestamp = match parse_i64(line, a, b) {
                Some(t) => t,
                None => {
                    return Err(
                        field_text_quoted(field, " line has an invalid timestamp ", line, a, b),
                    );
                },
            };
            let zone = string_of(line, c, d);
            let tz_offset_minutes = match parse_tz_offset(zone.as_str()) {
                Some(z) => z,
                None => {
                    return Err(
                        field_text_quoted(field, " line has an invalid timezone ", line, c, d),
                    );
                },
            };
            Ok(Signature { name, email, timestamp, tz_offset_minutes })
        },
    }
}


// ---------------------------------------------------------------------------
// The reader: a state machine fed one line at a time
// ---------------------------------------------------------------------------

/// What can be wrong with the input, apart from a failed read.
pub enum Problem {
    UnexpectedEnd,
    /// A line that had to begin with the first text begins otherwise.
    MissingPrefix(Seq<char>, Seq<char>),
    /// An id of the named kind (`commit`, `tree`, `parent`) that is no sha.
    BadId(Seq<char>, Seq<char>),
    /// The line after the committer line is not blank.
    MissingBlank(Seq<char>),
    /// An author or committer line (named by the first text) is malformed.
    BadSignature(Seq<char>, SignatureIssue),
}

/// The reason text of a `Problem`.
pub open spec fn problem_text(p: Problem) -> Seq<char> {
    match p {
        Problem::UnexpectedEnd => "unexpected end of input"@,
        Problem::MissingPrefix(prefix, line) => "expected a line starting with "@ + debug_quoted(
            prefix,
        ) + ", found "@ + debug_quoted(line),
        Problem::BadId(kind, id) => kind + " id "@ + debug_quoted(id)
            + " is not a 40-character hex sha"@,
        Problem::MissingBlank(line) => "expected a blank line before the message, found "@
            + debug_quoted(line),
        Problem::BadSignature(field, issue) => signature_issue_text(field, issue),
    }
}

/// One item that the reader hands out.
pub type Outcome = Result<CommitView, ParseErrorView>;

pub open spec fn outcome_view(r: Result<Commit, ParseError>) -> Outcome {
    match r {
        Ok(c) => Ok(c@),
        Err(e) => Err(e@),
    }
}

pub open spec fn outcomes_view(v: Seq<Result<Commit, ParseError>>) -> Seq<Outcome> {
    v.map_values(|r: Result<Commit, ParseError>| outcome_view(r))
}

/// Where the reader stands between two lines.
pub enum PhaseView {
    /// Between commits: blank lines are skipped, anything else opens a commit.
    Idle,
    /// The commit line has been read; the tree line comes next.
    Tree { sha: Seq<char> },
    /// Reading parent lines; the author line ends them.
    Parents { sha: Seq<char>, tree: Seq<char>, parents: Seq<Seq<char>> },
    /// The committer line comes next.
    Committer {
        sha: Seq<char>,
        tree: Seq<char>,
        parents: Seq<Seq<char>>,
        author: SignatureView,
    },
    /// The blank line before the message comes next.
    Separator {
        sha: Seq<char>,
        tree: Seq<char>,
        parents: Seq<Seq<char>>,
        author: SignatureView,
        committer: SignatureView,
    },
    /// Reading the message; `blank_pending` when a blank line was read whose
    /// meaning (paragraph break or end of the commit) the next line decides.
    Message { commit: CommitView, blank_pending: bool },
    /// An error was reported or the input ended: nothing more comes.
    Stopped,
}

/// The reader's state: its phase and the number of lines read so far.
pub struct ReaderView {
    pub phase: PhaseView,
    pub line_no: nat,
}

/// What reading the next line gave.
pub enum Input {
    /// A line, without its line ending.
    Line(String),
    /// Reading failed.
    ReadError(std::io::Error),
    /// The input is exhausted.
    End,
}

pub enum InputView {
    Line(Seq<char>),
    ReadError(std::io::Error),
    End,
}

impl View for Input {
    type V = InputView;

    open spec fn view(&self) -> InputView {
        match self {
            Input::Line(s) => InputView::Line(s@),
            Input::ReadError(e) => InputView::ReadError(*e),
            Input::End => InputView::End,
        }
    }
}

/// Stops at line `n` with a malformed-input error.
pub open spec fn stop_at(n: nat, p: Problem) -> (PhaseView, Seq<Outcome>) {
    (
        PhaseView::Stopped,
        seq![Err(ParseErrorView::Malformed { line: n, reason: problem_text(p) })],
    )
}

/// Line `n` read between commits.
pub open spec fn begin_commit_spec(n: nat, line: Seq<char>) -> (PhaseView, Seq<Outcome>) {
    if line.len() == 0 {
        (PhaseView::Idle, seq![])
    } else if !has_prefix(line, "commit "@) {
        stop_at(n, Problem::MissingPrefix("commit "@, line))
    } else {
        let sha = line.skip("commit "@.len() as int);
        if is_sha(sha) {
            (PhaseView::Tree { sha }, seq![])
        } else {
            stop_at(n, Problem::BadId("commit"@, sha))
        }
    }
}

/// `c` with one more message line.
pub open spec fn with_message_line(c: CommitView, m: Seq<char>) -> CommitView {
    CommitView { message: c.message.push(m), ..c }
}

/// Line `n` read in the message of `c`, with no blank line pending.
pub open spec fn message_line_spec(c: CommitView, n: nat, line: Seq<char>) -> (
    PhaseView,
    Seq<Outcome>,
) {
    if line.len() == 0 {
        (PhaseView::Message { commit: c, blank_pending: true }, seq![])
    } else if has_prefix(line, "    "@) {
        (
            PhaseView::Message {
                commit: with_message_line(c, line.skip("    "@.len() as int)),
                blank_pending: false,
            },
            seq![],
        )
    } else {
        let (p, o) = begin_commit_spec(n, line);
        (p, seq![Ok(c)] + o)
    }
}

/// Line number `n`, holding `line`, read in `phase`.
pub open spec fn line_step_spec(phase: PhaseView, n: nat, line: Seq<char>) -> (
    PhaseView,
    Seq<Outcome>,
) {
    match phase {
        PhaseView::Idle => begin_commit_spec(n, line),
        PhaseView::Tree { sha } => if has_prefix(line, "tree "@) {
            let tree = line.skip("tree "@.len() as int);
            if is_sha(tree) {
                (PhaseView::Parents { sha, tree, parents: seq![] }, seq![])
            } else {
                stop_at(n, Problem::BadId("tree"@, tree))
            }
        } else {
            stop_at(n, Problem::MissingPrefix("tree "@, line))
        },
        PhaseView::Parents { sha, tree, parents } => if has_prefix(line, "parent "@) {
            let parent = line.skip("parent "@.len() as int);
            if is_sha(parent) {
                (PhaseView::Parents { sha, tree, parents: parents.push(parent) }, seq![])
            } else {
                stop_at(n, Problem::BadId("parent"@, parent))
            }
        } else if has_prefix(line, "author "@) {
            match signature_spec(line.skip("author "@.len() as int)) {
                Ok(author) => (PhaseView::Committer { sha, tree, parents, author }, seq![]),
                Err(issue) => stop_at(n, Problem::BadSignature("author"@, issue)),
            }
        } else {
            stop_at(n, Problem::MissingPrefix("author "@, line))
        },
        PhaseView::Committer { sha, tree, parents, author } => if has_prefix(
            line,
            "committer "@,
        ) {
            match signature_spec(line.skip("committer "@.len() as int)) {
                Ok(committer) => (
                    PhaseView::Separator { sha, tree, parents, author, committer },
                    seq![],
                ),
                Err(issue) => stop_at(n, Problem::BadSignature("committer"@, issue)),
            }
        } else {
            stop_at(n, Problem::MissingPrefix("committer "@, line))
        },
        PhaseView::Separator { sha, tree, parents, author, committer } => if line.len() == 0 {
            (
                PhaseView::Message {
                    commit: CommitView { sha, tree, parents, author, committer, message: seq![] },
                    blank_pending: false,
                },
                seq![],
            )
        } else {
            stop_at(n, Problem::MissingBlank(line))
        },
        PhaseView::Message { commit, blank_pending } => if !blank_pending {
            message_line_spec(commit, n, line)
        } else if is_commit_header_spec(line) {
            let (p, o) = begin_commit_spec(n, line);
            (p, seq![Ok(commit)] + o)
        } else {
            message_line_spec(with_message_line(commit, seq![]), n, line)
        },
        PhaseView::Stopped => (PhaseView::Stopped, seq![]),
    }
}

/// The input ended after `line_no` lines, in `phase`.
pub open spec fn end_step_spec(phase: PhaseView, line_no: nat) -> (PhaseView, Seq<Outcome>) {
    match phase {
        PhaseView::Idle => (PhaseView::Stopped, seq![]),
        PhaseView::Message { commit, blank_pending } => (PhaseView::Stopped, seq![Ok(commit)]),
        PhaseView::Stopped => (PhaseView::Stopped, seq![]),
        _ => stop_at(line_no, Problem::UnexpectedEnd),
    }
}

/// One step of the reader: its next state and the items it hands out.
pub open spec fn reader_step(r: ReaderView, input: InputView) -> (ReaderView, Seq<Outcome>) {
    match input {
        InputView::Line(line) => {
            let (phase, out) = line_step_spec(r.phase, r.line_no + 1, line);
            (ReaderView { phase, line_no: r.line_no + 1 }, out)
        },
        InputView::ReadError(e) => (
            ReaderView { phase: PhaseView::Stopped, line_no: r.line_no + 1 },
            if r.phase is Stopped {
                seq![]
            } else {
                seq![Err(ParseErrorView::Io(e))]
            },
        ),
        InputView::End => {
            let (phase, out) = end_step_spec(r.phase, r.line_no);
            (ReaderView { phase, line_no: r.line_no }, out)
        },
    }
}


// ---------------------------------------------------------------------------
// The reader, executable
// ---------------------------------------------------------------------------

enum Phase {
    Idle,
    Tree { sha: String },
    Parents { sha: String, tree: String, parents: Vec<String> },
    Committer { sha: String, tree: String, parents: Vec<String>, author: Signature },
    Separator {
        sha: String,
        tree: String,
        parents: Vec<String>,
        author: Signature,
        committer: Signature,
    },
    Message { commit: Commit, blank_pending: bool },
    Stopped,
}

impl View for Phase {
    type V = PhaseView;

    closed spec fn view(&self) -> PhaseView {
        match self {
            Phase::Idle => PhaseView::Idle,
            Phase::Tree { sha } => PhaseView::Tree { sha: sha@ },
            Phase::Parents { sha, tree, parents } => PhaseView::Parents {
                sha: sha@,
                tree: tree@,
                parents: strings_view(parents@),
            },
            Phase::Committer { sha, tree, parents, author } => PhaseView::Committer {
                sha: sha@,
                tree: tree@,
                parents: strings_view(parents@),
                author: author@,
            },
            Phase::Separator { sha, tree, parents, author, committer } => PhaseView::Separator {
                sha: sha@,
                tree: tree@,
                parents: strings_view(parents@),
                author: author@,
                committer: committer@,
            },
            Phase::Message { commit, blank_pending } => PhaseView::Message {
                commit: commit@,
                blank_pending: *blank_pending,
            },
            Phase::Stopped => PhaseView::Stopped,
        }
    }
}

/// Reads commits from git's raw log format (`git log --format=raw`), one line
/// at a time. The caller feeds each line as it is read and receives every
/// commit as soon as its last line has been seen, so only one commit's lines
/// are ever held in memory. After the first error nothing more is handed out.
pub struct CommitReader {
    phase: Phase,
    line_no: usize,
}

impl View for CommitReader {
    type V = ReaderView;

    closed spec fn view(&self) -> ReaderView {
        ReaderView { phase: self.phase@, line_no: self.line_no as nat }
    }
}

proof fn lemma_outcomes_concat(a: Seq<Result<Commit, ParseError>>, b: Seq<Result<Commit, ParseError>>)
    ensures
        outcomes_view(a + b) == outcomes_view(a) + outcomes_view(b),
{
    assert(outcomes_view(a + b) =~= outcomes_view(a) + outcomes_view(b));
}

type Step = (Phase, Vec<Result<Commit, ParseError>>);

fn nothing(phase: Phase) -> (r: Step)
    ensures
        r.0@ == phase@,
        outcomes_view(r.1@) == Seq::<Outcome>::empty(),
{
    let v: Vec<Result<Commit, ParseError>> = Vec::new();
    assert(outcomes_view(v@) =~= Seq::<Outcome>::empty());
    (phase, v)
}

fn single(x: Result<Commit, ParseError>) -> (v: Vec<Result<Commit, ParseError>>)
    ensures
        outcomes_view(v@) == seq![outcome_view(x)],
{
    let mut v: Vec<Result<Commit, ParseError>> = Vec::new();
    v.push(x);
    assert(outcomes_view(v@) =~= seq![outcome_view(x)]);
    v
}

/// `c` handed out ahead of the items of `step`.
fn commit_first(c: Commit, step: Step) -> (r: Step)
    ensures
        r.0@ == step.0@,
        outcomes_view(r.1@) == seq![Ok(c@)] + outcomes_view(step.1@),
{
    let (phase, mut rest) = step;
    let ghost rest_view = rest@;
    let mut v = single(Ok(c));
    let ghost first = v@;
    v.append(&mut rest);
    proof {
        lemma_outcomes_concat(first, rest_view);
    }
    (phase, v)
}

fn stop_with(n: usize, reason: String) -> (r: Step)
    ensures
        r.0@ == PhaseView::Stopped,
        outcomes_view(r.1@) == seq![
            Err::<CommitView, ParseErrorView>(ParseErrorView::Malformed { line: n as nat, reason: reason@ }),
        ],
{
    (Phase::Stopped, single(Err(ParseError::Malformed { line: n, reason })))
}

fn missing_prefix_reason(prefix: &str, line: &[char]) -> (r: String)
    ensures
        r@ == problem_text(Problem::MissingPrefix(prefix@, line@)),
{
    let mut r = String::new();
    append_str(&mut r, "expected a line starting with ");
    let p = debug_str(prefix);
    append_str(&mut r, p.as_str());
    append_str(&mut r, ", found ");
    let l = string_of(line, 0, line.len());
    assert(line@.subrange(0, line@.len() as int) =~= line@);
    let q = debug_str(l.as_str());
    append_str(&mut r, q.as_str());
    r
}

fn bad_id_reason(kind: &str, line: &[char], from: usize) -> (r: String)
    requires
        from <= line@.len(),
    ensures
        r@ == problem_text(Problem::BadId(kind@, line@.skip(from as int))),
{
    let mut r = field_text_quoted(kind, " id ", line, from, line.len());
    assert(line@.subrange(from as int, line@.len() as int) =~= line@.skip(from as int));
    append_str(&mut r, " is not a 40-character hex sha");
    r
}

fn missing_blank_reason(line: &[char]) -> (r: String)
    ensures
        r@ == problem_text(Problem::MissingBlank(line@)),
{
    let mut r = String::new();
    append_str(&mut r, "expected a blank line before the message, found ");
    let l = string_of(line, 0, line.len());
    assert(line@.subrange(0, line@.len() as int) =~= line@);
    let q = debug_str(l.as_str());
    append_str(&mut r, q.as_str());
    r
}

/// Line `n` read between commits.
fn begin_commit(n: usize, line: &[char]) -> (r: Step)
    ensures
        (r.0@, outcomes_view(r.1@)) == begin_commit_spec(n as nat, line@),
{
    if line.len() == 0 {
        return nothing(Phase::Idle);
    }
    match strip_prefix(line, "commit ") {
        None => stop_with(n, missing_prefix_reason("commit ", line)),
        Some(k) => {
            let rest = slice_subrange(line, k, line.len());
            assert(rest@ =~= line@.skip(k as int));
            if is_sha_chars(rest) {
                let sha = string_of(line, k, line.len());
                nothing(Phase::Tree { sha })
            } else {
                stop_with(n, bad_id_reason("commit", line, k))
            }
        },
    }
}

/// Line `n` read in the message of `c`, with no blank line pending.
fn message_line(c: Commit, n: usize, line: &[char]) -> (r: Step)
    ensures
        (r.0@, outcomes_view(r.1@)) == message_line_spec(c@, n as nat, line@),
{
    if line.len() == 0 {
        return nothing(Phase::Message { commit: c, blank_pending: true });
    }
    match strip_prefix(line, "    ") {
        Some(k) => {
            let m = string_of(line, k, line.len());
            assert(m@ =~= line@.skip(k as int));
            let mut c = c;
            let ghost before = c@;
            proof {
                crate::model::lemma_strings_view_push(c.message@, m);
            }
            c.message.push(m);
            assert(c@ == with_message_line(before, line@.skip(k as int)));
            nothing(Phase::Message { commit: c, blank_pending: false })
        },
        None => commit_first(c, begin_commit(n, line)),
    }
}

/// Reads the id after `prefix` on `line`, or stops with the kind's error.
fn read_id(n: usize, line: &[char], from: usize, kind: &str) -> (r: Result<String, Step>)
    requires
        from <= line@.len(),
    ensures
        match r {
            Ok(id) => id@ == line@.skip(from as int) && is_sha(id@),
            Err(step) => !is_sha(line@.skip(from as int)) && (step.0@, outcomes_view(step.1@))
                == stop_at(n as nat, Problem::BadId(kind@, line@.skip(from as int))),
        },
{
    let rest = slice_subrange(line, from, line.len());
    assert(rest@ =~= line@.skip(from as int));
    if is_sha_chars(rest) {
        let id = string_of(line, from, line.len());
        Ok(id)
    } else {
        Err(stop_with(n, bad_id_reason(kind, line, from)))
    }
}

/// Line number `n`, holding `line`, read in `phase`.
fn line_step(phase: Phase, n: usize, line: &[char]) -> (r: Step)
    ensures
        (r.0@, outcomes_view(r.1@)) == line_step_spec(phase@, n as nat, line@),
{
    match phase {
        Phase::Idle => begin_commit(n, line),
        Phase::Tree { sha } => match strip_prefix(line, "tree ") {
            None => stop_with(n, missing_prefix_reason("tree ", line)),
            Some(k) => match read_id(n, line, k, "tree") {
                Ok(tree) => {
                    let parents: Vec<String> = Vec::new();
                    assert(strings_view(parents@) =~= Seq::<Seq<char>>::empty());
                    nothing(Phase::Parents { sha, tree, parents })
                },
                Err(step) => step,
            },
        },
        Phase::Parents { sha, tree, parents } => {
            if let Some(k) = strip_prefix(line, "parent ") {
                match read_id(n, line, k, "parent") {
                    Ok(parent) => {
                        let mut parents = parents;
                        proof {
                            crate::model::lemma_strings_view_push(parents@, parent);
                        }
                        parents.push(parent);
                        nothing(Phase::Parents { sha, tree, parents })
                    },
                    Err(step) => step,
                }
            } else {
                match strip_prefix(line, "author ") {
                    None => stop_with(n, missing_prefix_reason("author ", line)),
                    Some(k) => {
                        let rest = slice_subrange(line, k, line.len());
                        assert(rest@ =~= line@.skip(k as int));
                        match parse_signature("author", rest) {
                            Ok(author) => nothing(Phase::Committer { sha, tree, parents, author }),
                            Err(reason) => stop_with(n, reason),
                        }
                    },
                }
            }
        },
        Phase::Committer { sha, tree, parents, author } => match strip_prefix(line, "committer ") {
            None => stop_with(n, missing_prefix_reason("committer ", line)),
            Some(k) => {
                let rest = slice_subrange(line, k, line.len());
                assert(rest@ =~= line@.skip(k as int));
                match parse_signature("committer", rest) {
                    Ok(committer) => nothing(
                        Phase::Separator { sha, tree, parents, author, committer },
                    ),
                    Err(reason) => stop_with(n, reason),
                }
            },
        },
        Phase::Separator { sha, tree, parents, author, committer } => {
            if line.len() == 0 {
                let message: Vec<String> = Vec::new();
                assert(strings_view(message@) =~= Seq::<Seq<char>>::empty());
                let commit = Commit { sha, tree, parents, author, committer, message };
                nothing(Phase::Message { commit, blank_pending: false })
            } else {
                stop_with(n, missing_blank_reason(line))
            }
        },
        Phase::Message { commit, blank_pending } => {
            if !blank_pending {
                message_line(commit, n, line)
            } else if is_commit_header(line) {
                commit_first(commit, begin_commit(n, line))
            } else {
                let mut c = commit;
                let blank = String::new();
                let ghost before = c@;
                proof {
                    crate::model::lemma_strings_view_push(c.message@, blank);
                }
                c.message.push(blank);
                assert(c@ == with_message_line(before, seq![]));
                message_line(c, n, line)
            }
        },
        Phase::Stopped => nothing(Phase::Stopped),
    }
}

/// The input ended after `line_no` lines, in `phase`.
fn end_step(phase: Phase, line_no: usize) -> (r: Step)
    ensures
        (r.0@, outcomes_view(r.1@)) == end_step_spec(phase@, line_no as nat),
{
    match phase {
        Phase::Idle => nothing(Phase::Stopped),
        Phase::Stopped => nothing(Phase::Stopped),
        Phase::Message { commit, blank_pending } => (Phase::Stopped, single(Ok(commit))),
        _ => {
            let mut reason = String::new();
            append_str(&mut reason, "unexpected end of input");
            stop_with(line_no, reason)
        },
    }
}

impl CommitReader {
    /// A reader that has read nothing yet.
    pub fn new() -> (r: Self)
        ensures
            r@ == (ReaderView { phase: PhaseView::Idle, line_no: 0 }),
    {
        CommitReader { phase: Phase::Idle, line_no: 0 }
    }

    /// The number of lines (and failed reads) fed so far.
    pub fn lines_read(&self) -> (r: usize)
        ensures
            r == self@.line_no,
    {
        self.line_no
    }

    /// Feeds the next line, failed read, or the end of the input, and returns
    /// the items that it completes, in order.
    pub fn feed(&mut self, input: Input) -> (out: Vec<Result<Commit, ParseError>>)
        requires
            !(input@ is End) ==> old(self)@.line_no < usize::MAX,
        ensures
            (final(self)@, outcomes_view(out@)) == reader_step(old(self)@, input@),
    {
        let mut phase = Phase::Stopped;
        std::mem::swap(&mut phase, &mut self.phase);
        match input {
            Input::Line(s) => {
                let n = self.line_no + 1;
                self.line_no = n;
                let chars = chars_of(s.as_str());
                let (next, out) = line_step(phase, n, chars.as_slice());
                self.phase = next;
                out
            },
            Input::ReadError(e) => {
                self.line_no = self.line_no + 1;
                let out = match phase {
                    Phase::Stopped => {
                        let v: Vec<Result<Commit, ParseError>> = Vec::new();
                        assert(outcomes_view(v@) =~= Seq::<Outcome>::empty());
                        v
                    },
                    _ => single(Err(ParseError::Io(e))),
                };
                self.phase = Phase::Stopped;
                out
            },
            Input::End => {
                let (next, out) = end_step(phase, self.line_no);
                self.phase = next;
                out
            },
        }
    }
}


// ---------------------------------------------------------------------------
// Whole logs
// ---------------------------------------------------------------------------

/// Feeding `inputs` in order to a reader in state `r`: its final state and
/// every item handed out, in order.
pub open spec fn run(r: ReaderView, inputs: Seq<InputView>) -> (ReaderView, Seq<Outcome>)
    decreases inputs.len(),
{
    if inputs.len() == 0 {
        (r, seq![])
    } else {
        let (mid, first) = run(r, inputs.drop_last());
        let (last, rest) = reader_step(mid, inputs.last());
        (last, first + rest)
    }
}

/// A reader that has read nothing.
pub open spec fn fresh_reader() -> ReaderView {
    ReaderView { phase: PhaseView::Idle, line_no: 0 }
}

/// The lines of a log, then its end.
pub open spec fn log_inputs(lines: Seq<Seq<char>>) -> Seq<InputView> {
    lines.map_values(|l: Seq<char>| InputView::Line(l)).push(InputView::End)
}

/// Every item that reading the whole log `lines` hands out.
pub open spec fn parse_log_spec(lines: Seq<Seq<char>>) -> Seq<Outcome> {
    run(fresh_reader(), log_inputs(lines)).1
}

/// Only the last of a list of items may be an error.
pub open spec fn errors_only_last(o: Seq<Outcome>) -> bool {
    forall|i: int| 0 <= i < o.len() - 1 ==> (#[trigger] o[i]) is Ok
}

pub proof fn lemma_begin_commit_shape(n: nat, line: Seq<char>)
    ensures
        ({
            let (p, o) = begin_commit_spec(n, line);
            &&& o.len() <= 1
            &&& o.len() == 1 ==> o[0] is Err && p is Stopped
        }),
{
}

/// One step hands out errors only last, stops when it hands out an error,
/// and a stopped reader hands out nothing and stays stopped.
pub proof fn lemma_step_shape(r: ReaderView, input: InputView)
    ensures
        ({
            let (next, o) = reader_step(r, input);
            &&& errors_only_last(o)
            &&& (o.len() > 0 && o.last() is Err) ==> next.phase is Stopped
            &&& r.phase is Stopped ==> o.len() == 0 && next.phase is Stopped
        }),
{
    match input {
        InputView::Line(line) => {
            let n = r.line_no + 1;
            lemma_begin_commit_shape(n, line);
            match r.phase {
                PhaseView::Message { commit, blank_pending } => {
                    let c = if blank_pending { with_message_line(commit, seq![]) } else { commit };
                    let (p, o) = begin_commit_spec(n, line);
                    assert((seq![Ok::<CommitView, ParseErrorView>(commit)] + o)[0] is Ok);
                    assert((seq![Ok::<CommitView, ParseErrorView>(c)] + o)[0] is Ok);
                    if o.len() == 1 {
                        assert((seq![Ok::<CommitView, ParseErrorView>(commit)] + o).last() == o[0]);
                        assert((seq![Ok::<CommitView, ParseErrorView>(c)] + o).last() == o[0]);
                    }
                },
                _ => {},
            }
        },
        _ => {},
    }
}

/// Parsing stops at the first problem: whatever is fed to a fresh reader,
/// an error can only be the last item it ever hands out.
pub proof fn law_error_is_last(inputs: Seq<InputView>)
    ensures
        errors_only_last(run(fresh_reader(), inputs).1),
        ({
            let (r, o) = run(fresh_reader(), inputs);
            (o.len() > 0 && o.last() is Err) ==> r.phase is Stopped
        }),
    decreases inputs.len(),
{
    if inputs.len() > 0 {
        law_error_is_last(inputs.drop_last());
        let (mid, o1) = run(fresh_reader(), inputs.drop_last());
        let (last, o2) = reader_step(mid, inputs.last());
        lemma_step_shape(mid, inputs.last());
        let o = o1 + o2;
        assert forall|i: int| 0 <= i < o.len() - 1 implies (#[trigger] o[i]) is Ok by {
            if i < o1.len() {
                if i == o1.len() - 1 && o1[i] is Err {
                    assert(o2.len() == 0);
                }
            } else {
                assert(o[i] == o2[i - o1.len()]);
            }
        }
        if o.len() > 0 && o.last() is Err {
            if o2.len() > 0 {
                assert(o.last() == o2.last());
            } else {
                assert(o.last() == o1.last());
            }
        }
    }
}

/// A stopped reader stays stopped and hands out nothing more.
pub proof fn law_stopped_stays_silent(r: ReaderView, inputs: Seq<InputView>)
    requires
        r.phase is Stopped,
    ensures
        run(r, inputs).0.phase is Stopped,
        run(r, inputs).1.len() == 0,
    decreases inputs.len(),
{
    if inputs.len() > 0 {
        law_stopped_stays_silent(r, inputs.drop_last());
        let (mid, o1) = run(r, inputs.drop_last());
        lemma_step_shape(mid, inputs.last());
    }
}

/// `o` as it reads when `k` more lines came before: a malformed-input error
/// names a line `k` further on.
pub open spec fn shifted(o: Outcome, k: nat) -> Outcome {
    match o {
        Err(ParseErrorView::Malformed { line, reason }) => Err(
            ParseErrorView::Malformed { line: line + k, reason },
        ),
        _ => o,
    }
}

pub open spec fn shifted_all(os: Seq<Outcome>, k: nat) -> Seq<Outcome> {
    os.map_values(|o: Outcome| shifted(o, k))
}

proof fn lemma_shifted_concat(a: Seq<Outcome>, b: Seq<Outcome>, k: nat)
    ensures
        shifted_all(a + b, k) == shifted_all(a, k) + shifted_all(b, k),
{
    assert(shifted_all(a + b, k) =~= shifted_all(a, k) + shifted_all(b, k));
}

/// Shifting an empty list or a list of one item.
proof fn lemma_shifted_short(o: Seq<Outcome>, k: nat)
    requires
        o.len() <= 1,
    ensures
        o.len() == 0 ==> shifted_all(o, k) == o,
        o.len() == 1 ==> shifted_all(o, k) == seq![shifted(o[0], k)],
{
    if o.len() == 0 {
        assert(shifted_all(o, k) =~= o);
    } else {
        assert(shifted_all(o, k) =~= seq![shifted(o[0], k)]);
    }
}

proof fn lemma_begin_commit_shift(n: nat, line: Seq<char>, k: nat)
    ensures
        begin_commit_spec(n + k, line).0 == begin_commit_spec(n, line).0,
        begin_commit_spec(n + k, line).1 == shifted_all(begin_commit_spec(n, line).1, k),
{
    let o = begin_commit_spec(n, line).1;
    lemma_begin_commit_shape(n, line);
    lemma_shifted_short(o, k);
    if o.len() == 1 {
        assert(begin_commit_spec(n + k, line).1 =~= seq![shifted(o[0], k)]);
    } else {
        assert(begin_commit_spec(n + k, line).1 =~= o);
    }
}

/// Lines read earlier only move the line numbers of errors: a reader that
/// had read `k` more lines, in the same phase, takes the same step.
pub proof fn lemma_step_shift(r: ReaderView, input: InputView, k: nat)
    ensures
        ({
            let (r1, o1) = reader_step(r, input);
            let (r2, o2) = reader_step(ReaderView { phase: r.phase, line_no: r.line_no + k }, input);
            &&& r2 == ReaderView { phase: r1.phase, line_no: r1.line_no + k }
            &&& o2 == shifted_all(o1, k)
        }),
{
    let (r1, o1) = reader_step(r, input);
    lemma_step_shape(r, input);
    match input {
        InputView::Line(line) => {
            let n = r.line_no + 1;
            lemma_begin_commit_shift(n, line, k);
            assert(n + k == r.line_no + k + 1);
            match r.phase {
                PhaseView::Message { commit, blank_pending } => {
                    let c = if blank_pending && !is_commit_header_spec(line) {
                        with_message_line(commit, seq![])
                    } else {
                        commit
                    };
                    let (p, o) = begin_commit_spec(n, line);
                    lemma_shifted_concat(seq![Ok::<CommitView, ParseErrorView>(c)], o, k);
                    lemma_shifted_short(seq![Ok::<CommitView, ParseErrorView>(c)], k);
                    lemma_begin_commit_shape(n, line);
                    lemma_shifted_short(o, k);
                },
                _ => {
                    lemma_shifted_short(o1, k);
                },
            }
        },
        _ => {
            lemma_shifted_short(o1, k);
        },
    }
}

/// Lines as reader inputs.
pub open spec fn line_inputs(ls: Seq<Seq<char>>) -> Seq<InputView> {
    ls.map_values(|l: Seq<char>| InputView::Line(l))
}

/// Feeding `a` and then `b` is feeding `a + b`.
pub proof fn lemma_run_append(r: ReaderView, a: Seq<InputView>, b: Seq<InputView>)
    ensures
        run(r, a + b) == ({
            let (mid, o1) = run(r, a);
            let (last, o2) = run(mid, b);
            (last, o1 + o2)
        }),
    decreases b.len(),
{
    if b.len() == 0 {
        assert(a + b =~= a);
        let (mid, o1) = run(r, a);
        assert(o1 + Seq::<Outcome>::empty() =~= o1);
    } else {
        assert((a + b).drop_last() =~= a + b.drop_last());
        assert((a + b).last() == b.last());
        lemma_run_append(r, a, b.drop_last());
        let (mid, o1) = run(r, a);
        let (m2, o2) = run(mid, b.drop_last());
        let (last, o3) = reader_step(m2, b.last());
        assert(o1 + o2 + o3 =~= o1 + (o2 + o3));
    }
}

/// Feeding one line is one step.
pub proof fn lemma_run_one(r: ReaderView, l: Seq<char>)
    ensures
        run(r, line_inputs(seq![l])) == reader_step(r, InputView::Line(l)),
{
    let inputs = line_inputs(seq![l]);
    assert(inputs.len() == 1);
    assert(inputs.last() == InputView::Line(l));
    assert(inputs.drop_last() =~= Seq::<InputView>::empty());
    assert(run(r, Seq::<InputView>::empty()) == (r, Seq::<Outcome>::empty()));
    let (last, o) = reader_step(r, InputView::Line(l));
    assert(Seq::<Outcome>::empty() + o =~= o);
}

/// A phase in which a commit has begun: the input cannot end there, or end
/// the commit, without something being handed out.
pub open spec fn commit_begun(phase: PhaseView) -> bool {
    !(phase is Idle) && !(phase is Stopped)
}

/// From a phase with a commit begun, a line either hands something out or
/// leaves a commit begun.
proof fn lemma_begun_step(r: ReaderView, line: Seq<char>)
    requires
        commit_begun(r.phase),
    ensures
        ({
            let (next, o) = reader_step(r, InputView::Line(line));
            o.len() > 0 || commit_begun(next.phase)
        }),
{
    lemma_begin_commit_shape(r.line_no + 1, line);
}

/// `lines` then the end of input, split into the first line and the rest.
proof fn lemma_log_inputs_front(lines: Seq<Seq<char>>)
    requires
        lines.len() > 0,
    ensures
        log_inputs(lines) == line_inputs(seq![lines[0]]) + log_inputs(lines.drop_first()),
{
    assert(log_inputs(lines) =~= line_inputs(seq![lines[0]]) + log_inputs(lines.drop_first()));
}

/// Once a commit has begun, reading the rest of the log and its end hands
/// something out.
proof fn lemma_begun_hands_out(r: ReaderView, lines: Seq<Seq<char>>)
    requires
        commit_begun(r.phase),
    ensures
        run(r, log_inputs(lines)).1.len() > 0,
    decreases lines.len(),
{
    if lines.len() == 0 {
        let inputs = log_inputs(lines);
        assert(inputs.drop_last() =~= Seq::<InputView>::empty());
        assert(inputs.last() == InputView::End);
        assert(run(r, Seq::<InputView>::empty()) == (r, Seq::<Outcome>::empty()));
        let (last, o) = reader_step(r, InputView::End);
        assert(Seq::<Outcome>::empty() + o =~= o);
    } else {
        lemma_log_inputs_front(lines);
        lemma_run_append(r, line_inputs(seq![lines[0]]), log_inputs(lines.drop_first()));
        lemma_run_one(r, lines[0]);
        lemma_begun_step(r, lines[0]);
        let (next, o) = reader_step(r, InputView::Line(lines[0]));
        if o.len() == 0 {
            lemma_begun_hands_out(next, lines.drop_first());
        }
        let o2 = run(next, log_inputs(lines.drop_first())).1;
        assert((o + o2).len() == o.len() + o2.len());
    }
}

/// Between commits, reading the rest of a log hands out nothing exactly when
/// every remaining line is blank.
proof fn lemma_idle_hands_out(n: nat, lines: Seq<Seq<char>>)
    ensures
        run(ReaderView { phase: PhaseView::Idle, line_no: n }, log_inputs(lines)).1.len() == 0
            <==> forall|i: int| 0 <= i < lines.len() ==> (#[trigger] lines[i]).len() == 0,
    decreases lines.len(),
{
    let r = ReaderView { phase: PhaseView::Idle, line_no: n };
    if lines.len() == 0 {
        let inputs = log_inputs(lines);
        assert(inputs.drop_last() =~= Seq::<InputView>::empty());
        assert(inputs.last() == InputView::End);
        assert(run(r, Seq::<InputView>::empty()) == (r, Seq::<Outcome>::empty()));
        let (last, o) = reader_step(r, InputView::End);
        assert(Seq::<Outcome>::empty() + o =~= o);
    } else {
        lemma_log_inputs_front(lines);
        lemma_run_append(r, line_inputs(seq![lines[0]]), log_inputs(lines.drop_first()));
        lemma_run_one(r, lines[0]);
        lemma_begin_commit_shape(n + 1, lines[0]);
        let (next, o) = reader_step(r, InputView::Line(lines[0]));
        let rest = lines.drop_first();
        if lines[0].len() == 0 {
            lemma_idle_hands_out(n + 1, rest);
            assert forall|i: int| 0 <= i < lines.len() && (forall|j: int| 0 <= j < rest.len() ==> (#[trigger] rest[j]).len() == 0)
                implies (#[trigger] lines[i]).len() == 0 by {
                if i > 0 {
                    assert(lines[i] == rest[i - 1]);
                }
            }
            assert forall|j: int| 0 <= j < rest.len() && (forall|i: int| 0 <= i < lines.len() ==> (#[trigger] lines[i]).len() == 0)
                implies (#[trigger] rest[j]).len() == 0 by {
                assert(rest[j] == lines[j + 1]);
            }
        } else if o.len() == 0 {
            lemma_begun_hands_out(next, rest);
        }
        let o2 = run(next, log_inputs(rest)).1;
        assert((o + o2).len() == o.len() + o2.len());
    }
}

/// Wherever a reader stands, reading the rest of a log and its end hands out
/// nothing exactly when the reader has stopped, or stands between commits and
/// every remaining line is blank.
pub proof fn law_rest_hands_out_nothing_iff(r: ReaderView, lines: Seq<Seq<char>>)
    ensures
        run(r, log_inputs(lines)).1.len() == 0 <==> (r.phase is Stopped || (r.phase is Idle
            && forall|i: int| 0 <= i < lines.len() ==> (#[trigger] lines[i]).len() == 0)),
{
    if r.phase is Stopped {
        law_stopped_stays_silent(r, log_inputs(lines));
    } else if r.phase is Idle {
        lemma_idle_hands_out(r.line_no, lines);
    } else {
        lemma_begun_hands_out(r, lines);
    }
}

/// Wherever a reader stands, once it has handed out an error it hands out
/// nothing more, whatever it is fed next.
pub proof fn law_nothing_after_error(r: ReaderView, a: Seq<InputView>, b: Seq<InputView>)
    requires
        exists|i: int| 0 <= i < run(r, a).1.len() && (#[trigger] run(r, a).1[i]) is Err,
    ensures
        run(run(r, a).0, b).1.len() == 0,
        run(r, a + b).1 == run(r, a).1,
{
    lemma_error_stops(r, a);
    law_stopped_stays_silent(run(r, a).0, b);
    lemma_run_append(r, a, b);
    assert(run(r, a).1 + run(run(r, a).0, b).1 =~= run(r, a).1);
}

/// A reader that has handed out an error has stopped.
proof fn lemma_error_stops(r: ReaderView, inputs: Seq<InputView>)
    ensures
        (exists|i: int| 0 <= i < run(r, inputs).1.len() && (#[trigger] run(r, inputs).1[i]) is Err)
            ==> run(r, inputs).0.phase is Stopped,
    decreases inputs.len(),
{
    if inputs.len() > 0 {
        lemma_error_stops(r, inputs.drop_last());
        let (mid, o1) = run(r, inputs.drop_last());
        let (last, o2) = reader_step(mid, inputs.last());
        lemma_step_shape(mid, inputs.last());
        let o = o1 + o2;
        if exists|i: int| 0 <= i < o.len() && (#[trigger] o[i]) is Err {
            let i = choose|i: int| 0 <= i < o.len() && (#[trigger] o[i]) is Err;
            if i < o1.len() {
                assert(o1[i] is Err);
            } else {
                let j = i - o1.len();
                assert(o2[j] is Err);
                if !(mid.phase is Stopped) {
                    assert(j == o2.len() - 1);
                }
            }
        }
    }
}

/// A log hands out nothing at all exactly when every line of it is blank.
pub proof fn law_nothing_iff_all_blank(lines: Seq<Seq<char>>)
    ensures
        parse_log_spec(lines).len() == 0 <==> forall|i: int|
            0 <= i < lines.len() ==> (#[trigger] lines[i]).len() == 0,
{
    lemma_idle_hands_out(0, lines);
}

/// Feeding the same inputs to a reader that had read `k` more lines only
/// moves the line numbers of errors.
pub proof fn lemma_run_shift(p: PhaseView, n: nat, inputs: Seq<InputView>, k: nat)
    ensures
        ({
            let (r1, o1) = run(ReaderView { phase: p, line_no: n }, inputs);
            let (r2, o2) = run(ReaderView { phase: p, line_no: n + k }, inputs);
            &&& r2 == ReaderView { phase: r1.phase, line_no: r1.line_no + k }
            &&& o2 == shifted_all(o1, k)
        }),
    decreases inputs.len(),
{
    if inputs.len() == 0 {
        assert(shifted_all(Seq::<Outcome>::empty(), k) =~= Seq::<Outcome>::empty());
    } else {
        lemma_run_shift(p, n, inputs.drop_last(), k);
        let (m1, a1) = run(ReaderView { phase: p, line_no: n }, inputs.drop_last());
        lemma_step_shift(m1, inputs.last(), k);
        let (l1, b1) = reader_step(m1, inputs.last());
        lemma_shifted_concat(a1, b1, k);
    }
}

/// `k` blank lines.
pub open spec fn blank_lines(k: nat) -> Seq<Seq<char>> {
    Seq::new(k, |i: int| Seq::<char>::empty())
}

proof fn lemma_blank_lines_skipped(k: nat)
    ensures
        run(fresh_reader(), line_inputs(blank_lines(k))) == (
        ReaderView { phase: PhaseView::Idle, line_no: k },
        Seq::<Outcome>::empty()),
    decreases k,
{
    if k > 0 {
        lemma_blank_lines_skipped((k - 1) as nat);
        let inputs = line_inputs(blank_lines(k));
        assert(inputs.drop_last() =~= line_inputs(blank_lines((k - 1) as nat)));
        assert(inputs.last() == InputView::Line(Seq::<char>::empty()));
    } else {
        assert(line_inputs(blank_lines(k)) =~= Seq::<InputView>::empty());
    }
}

/// Blank lines before the first commit are skipped: after `k` of them a log
/// reads as it does alone, save that error line numbers are `k` further on.
pub proof fn law_leading_blank_lines(k: nat, lines: Seq<Seq<char>>)
    ensures
        parse_log_spec(blank_lines(k) + lines) == shifted_all(parse_log_spec(lines), k),
{
    assert(log_inputs(blank_lines(k) + lines) =~= line_inputs(blank_lines(k)) + log_inputs(lines));
    lemma_run_append(fresh_reader(), line_inputs(blank_lines(k)), log_inputs(lines));
    lemma_blank_lines_skipped(k);
    lemma_run_shift(PhaseView::Idle, 0, log_inputs(lines), k);
    assert(Seq::<Outcome>::empty() + run(
        ReaderView { phase: PhaseView::Idle, line_no: k },
        log_inputs(lines),
    ).1 =~= run(ReaderView { phase: PhaseView::Idle, line_no: k }, log_inputs(lines)).1);
}

/// Reads a whole log that is already in memory, one string per line.
pub fn parse_log(lines: &[String]) -> (out: Vec<Result<Commit, ParseError>>)
    ensures
        outcomes_view(out@) == parse_log_spec(lines@.map_values(|l: String| l@)),
{
    let ghost inputs = log_inputs(lines@.map_values(|l: String| l@));
    let mut reader = CommitReader::new();
    let mut out: Vec<Result<Commit, ParseError>> = Vec::new();
    assert(outcomes_view(out@) =~= Seq::<Outcome>::empty());
    let mut i: usize = 0;
    while i < lines.len()
        invariant
            i <= lines@.len(),
            inputs == log_inputs(lines@.map_values(|l: String| l@)),
            reader@ == run(fresh_reader(), inputs.take(i as int)).0,
            reader@.line_no == i,
            outcomes_view(out@) == run(fresh_reader(), inputs.take(i as int)).1,
        decreases lines.len() - i,
    {
        let line = lines[i].clone();
        let ghost before = out@;
        let mut items = reader.feed(Input::Line(line));
        let ghost items_view = items@;
        out.append(&mut items);
        proof {
            lemma_outcomes_concat(before, items_view);
            assert(inputs.take(i + 1).drop_last() =~= inputs.take(i as int));
            assert(inputs.take(i + 1).last() == InputView::Line(lines@[i as int]@));
        }
        i = i + 1;
    }
    let ghost before = out@;
    let mut items = reader.feed(Input::End);
    let ghost items_view = items@;
    out.append(&mut items);
    proof {
        lemma_outcomes_concat(before, items_view);
        assert(inputs.drop_last() =~= inputs.take(i as int));
    }
    out
}

} // verus!
