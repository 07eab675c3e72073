use vstd::prelude::*;

use crate::model::{CommitView, SignatureView};
use crate::printer::message_lines;
use crate::number::{all_digits, decimal, digit_char, digits_value, parse_i64_spec, zero_padded};
use crate::parser::{
    is_commit_header_spec, with_message_line, lemma_run_append, lemma_run_one,
    lemma_begin_commit_shape, begin_commit_spec, end_step_spec, message_line_spec, line_step_spec, line_inputs, log_inputs, ParseErrorView, fresh_reader, parse_log_spec, reader_step, run, signature_spec,
    tz_offset_spec, InputView, Outcome, PhaseView, ReaderView,
};
use crate::text::{
    has_prefix, digit_value, find_char, is_digit_char, is_sha, is_white_space, law_sha_is_forty_hex_digits, split_ws, token_len, trim,
    trim_end, trim_start,
};

verus! {

// ---------------------------------------------------------------------------
// How a commit is written in git's raw format
// ---------------------------------------------------------------------------

/// An `i64` in decimal, with a leading `-` when negative.
pub open spec fn int_text(n: i64) -> Seq<char> {
    if n < 0 {
        seq!['-'] + decimal((-n) as nat)
    } else {
        decimal(n as nat)
    }
}

/// A time zone `minutes` east of UTC as `+hhmm` or `-hhmm`.
pub open spec fn tz_text(minutes: i32) -> Seq<char> {
    let a: nat = (if minutes < 0 { -(minutes as int) } else { minutes as int }) as nat;
    seq![if minutes < 0 { '-' } else { '+' }] + zero_padded(a / 60, 2) + zero_padded(a % 60, 2)
}

/// The part of an author or committer line after its keyword:
/// `Name <email> timestamp zone`.
pub open spec fn signature_text(s: SignatureView) -> Seq<char> {
    s.name + seq![' ', '<'] + s.email + seq!['>', ' '] + int_text(s.timestamp) + seq![' ']
        + tz_text(s.tz_offset_minutes)
}

/// A message line as the raw format writes it: indented by four spaces, or
/// empty when it is empty.
pub open spec fn raw_message_line(m: Seq<char>) -> Seq<char> {
    if m.len() == 0 {
        seq![]
    } else {
        "    "@ + m
    }
}

/// The lines of one commit in git's raw format, ending with a blank line:
/// `commit`, `tree`, one `parent` line per parent, `author`, `committer`, a
/// blank line, the message lines, and a blank line.
pub open spec fn raw_commit_lines(c: CommitView) -> Seq<Seq<char>> {
    seq!["commit "@ + c.sha, "tree "@ + c.tree] + c.parents.map_values(
        |p: Seq<char>| "parent "@ + p,
    ) + seq!["author "@ + signature_text(c.author), "committer "@ + signature_text(c.committer), seq![]]
        + c.message.map_values(|m: Seq<char>| raw_message_line(m)) + seq![seq![]]
}

/// The lines of a log of commits, one after the other.
pub open spec fn raw_log(cs: Seq<CommitView>) -> Seq<Seq<char>>
    decreases cs.len(),
{
    if cs.len() == 0 {
        seq![]
    } else {
        raw_log(cs.drop_last()) + raw_commit_lines(cs.last())
    }
}

/// Forty characters, each `0-9`, `a-f` or `A-F`.
pub open spec fn forty_hex_digits(s: Seq<char>) -> bool {
    s.len() == 40 && forall|i: int|
        0 <= i < s.len() ==> ('0' <= #[trigger] s[i] && s[i] <= '9') || ('a' <= s[i] && s[i]
            <= 'f') || ('A' <= s[i] && s[i] <= 'F')
}

/// A commit that the raw format can carry and give back unchanged: its ids
/// are forty hex digits and its signatures are well formed. Its message may
/// hold any lines.
pub open spec fn well_formed_commit(c: CommitView) -> bool {
    &&& forty_hex_digits(c.sha)
    &&& forty_hex_digits(c.tree)
    &&& forall|i: int| 0 <= i < c.parents.len() ==> forty_hex_digits(#[trigger] c.parents[i])
    &&& well_formed_signature(c.author)
    &&& well_formed_signature(c.committer)
}

/// A signature that the raw format can carry and give back unchanged: a name
/// that is not empty, neither begins nor ends with white space and holds no
/// angle bracket, an email without `>`, and a zone of less than 100 hours.
pub open spec fn well_formed_signature(s: SignatureView) -> bool {
    &&& s.name.len() > 0
    &&& !is_white_space(s.name[0])
    &&& !is_white_space(s.name.last())
    &&& !s.name.contains('<')
    &&& !s.name.contains('>')
    &&& !s.email.contains('>')
    &&& -6000 < s.tz_offset_minutes < 6000
}

// ---------------------------------------------------------------------------
// Lemmas on the pieces
// ---------------------------------------------------------------------------

/// A decimal rendering is all digits and reads back as its value.
pub proof fn lemma_decimal_digits(n: nat)
    ensures
        all_digits(decimal(n)),
        digits_value(decimal(n)) == n,
        decimal(n).len() > 0,
    decreases n,
{
    assert(digit_value(digit_char(n % 10)) == n % 10);
    let d = decimal(n);
    if n >= 10 {
        lemma_decimal_digits(n / 10);
        assert(d.drop_last() =~= decimal(n / 10));
        assert(digits_value(d) == digits_value(decimal(n / 10)) * 10 + n % 10);
        assert(all_digits(d)) by {
            assert forall|i: int| 0 <= i < d.len() implies is_digit_char(#[trigger] d[i]) by {
                if i < d.len() - 1 {
                    assert(d[i] == decimal(n / 10)[i]);
                }
            }
        }
    } else {
        assert(d.drop_last() =~= Seq::<char>::empty());
        assert(digits_value(Seq::<char>::empty()) == 0);
        assert(d.last() == digit_char(n));
        assert(n % 10 == n);
        assert(digits_value(d) == n);
    }
}

/// `int_text` reads back as the same number.
pub proof fn lemma_int_text_parses(n: i64)
    ensures
        parse_i64_spec(int_text(n)) == Some(n),
        int_text(n).len() > 0,
        forall|i: int| 0 <= i < int_text(n).len() ==> !is_white_space(#[trigger] int_text(n)[i]),
{
    let t = int_text(n);
    if n < 0 {
        lemma_decimal_digits((-n) as nat);
        assert(t.drop_first() =~= decimal((-n) as nat));
        assert(forall|i: int| 0 < i < t.len() ==> t[i] == decimal((-n) as nat)[i - 1]);
    } else {
        lemma_decimal_digits(n as nat);
    }
    assert forall|i: int| 0 <= i < t.len() implies !is_white_space(#[trigger] t[i]) by {
        if n < 0 && i > 0 {
            assert(t[i] == decimal((-n) as nat)[i - 1]);
        }
    }
}

/// Two-digit zero padding of a number below 100.
pub proof fn lemma_two_digits(n: nat)
    requires
        n < 100,
    ensures
        zero_padded(n, 2) == seq![digit_char(n / 10), digit_char(n % 10)],
{
    reveal_with_fuel(decimal, 2);
    if n < 10 {
        assert(zero_padded(n, 2) =~= seq![digit_char(0), digit_char(n)]);
    } else {
        assert(decimal(n / 10) == seq![digit_char(n / 10)]);
        assert(zero_padded(n, 2) =~= seq![digit_char(n / 10), digit_char(n % 10)]);
    }
}

/// `tz_text` reads back as the same offset.
pub proof fn lemma_tz_text_parses(minutes: i32)
    requires
        -6000 < minutes < 6000,
    ensures
        tz_offset_spec(tz_text(minutes)) == Some(minutes),
        tz_text(minutes).len() == 5,
        forall|i: int| 0 <= i < 5 ==> !is_white_space(#[trigger] tz_text(minutes)[i]),
{
    let a: nat = (if minutes < 0 { -(minutes as int) } else { minutes as int }) as nat;
    lemma_two_digits(a / 60);
    lemma_two_digits(a % 60);
    let t = tz_text(minutes);
    assert(t =~= seq![
        if minutes < 0 { '-' } else { '+' },
        digit_char(a / 60 / 10),
        digit_char(a / 60 % 10),
        digit_char(a % 60 / 10),
        digit_char(a % 60 % 10),
    ]);
    assert(all_digits(t.skip(1)));
    assert(10 * digit_value(t[1]) + digit_value(t[2]) == a / 60);
    assert(10 * digit_value(t[3]) + digit_value(t[4]) == a % 60);
}


/// Searching past a stretch that lacks the character.
pub proof fn lemma_find_char_after(a: Seq<char>, b: Seq<char>, c: char)
    requires
        !a.contains(c),
    ensures
        find_char(a + b, c) == match find_char(b, c) {
            Some(i) => Some(i + a.len()),
            None => None::<nat>,
        },
    decreases a.len(),
{
    if a.len() > 0 {
        assert(a[0] != c);
        assert((a + b).drop_first() =~= a.drop_first() + b);
        assert(!a.drop_first().contains(c)) by {
            if a.drop_first().contains(c) {
                let k = choose|k: int| 0 <= k < a.drop_first().len() && a.drop_first()[k] == c;
                assert(a[k + 1] == c);
            }
        }
        lemma_find_char_after(a.drop_first(), b, c);
    } else {
        assert(a + b =~= b);
    }
}

/// A word followed by white space (or nothing) is one token.
pub proof fn lemma_token_len_word(w: Seq<char>, rest: Seq<char>)
    requires
        forall|i: int| 0 <= i < w.len() ==> !is_white_space(#[trigger] w[i]),
        rest.len() == 0 || is_white_space(rest[0]),
    ensures
        token_len(w + rest) == w.len(),
    decreases w.len(),
{
    if w.len() > 0 {
        assert((w + rest).drop_first() =~= w.drop_first() + rest);
        assert forall|i: int| 0 <= i < w.drop_first().len() implies !is_white_space(
            #[trigger] w.drop_first()[i],
        ) by {
            assert(w.drop_first()[i] == w[i + 1]);
        }
        lemma_token_len_word(w.drop_first(), rest);
    } else {
        assert(w + rest =~= rest);
    }
}

/// ` a b` splits into the words `a` and `b`.
pub proof fn lemma_split_two_words(a: Seq<char>, b: Seq<char>)
    requires
        a.len() > 0,
        b.len() > 0,
        forall|i: int| 0 <= i < a.len() ==> !is_white_space(#[trigger] a[i]),
        forall|i: int| 0 <= i < b.len() ==> !is_white_space(#[trigger] b[i]),
    ensures
        split_ws(seq![' '] + a + seq![' '] + b) == seq![a, b],
{
    let s = seq![' '] + a + seq![' '] + b;
    assert(s.drop_first() =~= a + (seq![' '] + b));
    lemma_token_len_word(a, seq![' '] + b);
    let t = a + (seq![' '] + b);
    assert(t.take(a.len() as int) =~= a);
    assert(t.skip(a.len() as int) =~= seq![' '] + b);
    assert((seq![' '] + b).drop_first() =~= b);
    lemma_token_len_word(b, seq![]);
    assert(b + Seq::<char>::empty() =~= b);
    assert(b.take(b.len() as int) =~= b);
    assert(b.skip(b.len() as int) =~= Seq::<char>::empty());
    assert(token_len(b) == b.len());
    assert(split_ws(Seq::<char>::empty()) =~= Seq::<Seq<char>>::empty());
    assert(split_ws(b) =~= seq![b]);
    assert(split_ws(t) =~= seq![a] + split_ws(seq![' '] + b));
}

/// A well-formed signature's text reads back as that signature.
pub proof fn lemma_signature_round_trip(s: SignatureView)
    requires
        well_formed_signature(s),
    ensures
        signature_spec(signature_text(s)) == Ok::<SignatureView, crate::parser::SignatureIssue>(s),
{
    let ts = int_text(s.timestamp);
    let tz = tz_text(s.tz_offset_minutes);
    lemma_int_text_parses(s.timestamp);
    lemma_tz_text_parses(s.tz_offset_minutes);
    let text = signature_text(s);
    let after_lt = s.email + seq!['>', ' '] + ts + seq![' '] + tz;
    assert(text =~= s.name + (seq![' ', '<'] + after_lt));
    lemma_find_char_after(s.name, seq![' ', '<'] + after_lt, '<');
    let u = seq![' ', '<'] + after_lt;
    assert(u[0] == ' ');
    assert(u.drop_first()[0] == '<');
    assert(u.drop_first().len() > 0);
    assert(find_char(u.drop_first(), '<') == Some(0nat));
    assert(find_char(u, '<') == Some(1nat));
    let lt = s.name.len() + 1;
    assert(find_char(text, '<') == Some(lt));
    let head = s.name + seq![' ', '<'] + s.email;
    let tail = seq![' '] + ts + seq![' '] + tz;
    assert(text =~= head + (seq!['>'] + tail));
    assert(!head.contains('>')) by {
        if head.contains('>') {
            let k = choose|k: int| 0 <= k < head.len() && head[k] == '>';
            if k < s.name.len() {
                assert(s.name[k] == '>');
            } else if k >= s.name.len() + 2 {
                assert(s.email[k - s.name.len() - 2] == '>');
            }
        }
    }
    lemma_find_char_after(head, seq!['>'] + tail, '>');
    let gt = head.len();
    assert(find_char(text, '>') == Some(gt));
    // the name
    assert(text.take(lt as int) =~= s.name + seq![' ']);
    let padded = s.name + seq![' '];
    assert(trim_start(padded) == padded);
    assert(padded.drop_last() =~= s.name);
    assert(trim_end(padded) == trim_end(s.name));
    assert(trim_end(s.name) == s.name);
    assert(trim(text.take(lt as int)) == s.name);
    // the email
    assert(text.subrange(lt as int + 1, gt as int) =~= s.email);
    // the two words
    assert(text.skip(gt as int + 1) =~= tail);
    lemma_split_two_words(ts, tz);
    assert(split_ws(text.skip(gt as int + 1)) == seq![ts, tz]);
}


// ---------------------------------------------------------------------------
// Feeding lines to the reader
// ---------------------------------------------------------------------------

pub proof fn lemma_line_inputs_append(a: Seq<Seq<char>>, b: Seq<Seq<char>>)
    ensures
        line_inputs(a + b) == line_inputs(a) + line_inputs(b),
{
    assert(line_inputs(a + b) =~= line_inputs(a) + line_inputs(b));
}

/// Feeding `a + b` as lines.
pub proof fn lemma_run_lines_append(r: ReaderView, a: Seq<Seq<char>>, b: Seq<Seq<char>>)
    ensures
        run(r, line_inputs(a + b)) == ({
            let (mid, o1) = run(r, line_inputs(a));
            let (last, o2) = run(mid, line_inputs(b));
            (last, o1 + o2)
        }),
{
    lemma_line_inputs_append(a, b);
    lemma_run_append(r, line_inputs(a), line_inputs(b));
}

proof fn lemma_literals()
    ensures
        "commit "@ == seq!['c', 'o', 'm', 'm', 'i', 't', ' '],
        "tree "@ == seq!['t', 'r', 'e', 'e', ' '],
        "parent "@ == seq!['p', 'a', 'r', 'e', 'n', 't', ' '],
        "author "@ == seq!['a', 'u', 't', 'h', 'o', 'r', ' '],
        "committer "@ == seq!['c', 'o', 'm', 'm', 'i', 't', 't', 'e', 'r', ' '],
        "    "@ == seq![' ', ' ', ' ', ' '],
{
    reveal_strlit("commit ");
    reveal_strlit("tree ");
    reveal_strlit("parent ");
    reveal_strlit("author ");
    reveal_strlit("committer ");
    reveal_strlit("    ");
    assert("commit "@ =~= seq!['c', 'o', 'm', 'm', 'i', 't', ' ']);
    assert("tree "@ =~= seq!['t', 'r', 'e', 'e', ' ']);
    assert("parent "@ =~= seq!['p', 'a', 'r', 'e', 'n', 't', ' ']);
    assert("author "@ =~= seq!['a', 'u', 't', 'h', 'o', 'r', ' ']);
    assert("committer "@ =~= seq!['c', 'o', 'm', 'm', 'i', 't', 't', 'e', 'r', ' ']);
    assert("    "@ =~= seq![' ', ' ', ' ', ' ']);
}

/// A line made of a keyword and a rest begins with the keyword, and the rest
/// follows it.
proof fn lemma_keyword_line(k: Seq<char>, rest: Seq<char>)
    ensures
        has_prefix(k + rest, k),
        (k + rest).skip(k.len() as int) == rest,
{
    assert((k + rest).take(k.len() as int) =~= k);
    assert((k + rest).skip(k.len() as int) =~= rest);
}


/// `c` with its message replaced by `m`.
pub open spec fn with_message(c: CommitView, m: Seq<Seq<char>>) -> CommitView {
    CommitView { message: m, ..c }
}

/// Where the reader stands after the raw lines of message `m` of `c`: a
/// trailing empty line is still pending.
pub open spec fn message_state(c: CommitView, m: Seq<Seq<char>>) -> PhaseView {
    if m.len() > 0 && m.last().len() == 0 {
        PhaseView::Message { commit: with_message(c, m.drop_last()), blank_pending: true }
    } else {
        PhaseView::Message { commit: with_message(c, m), blank_pending: false }
    }
}

/// Parent lines read after the tree line.
proof fn lemma_parent_lines(
    r: ReaderView,
    sha: Seq<char>,
    tree: Seq<char>,
    ps0: Seq<Seq<char>>,
    ps: Seq<Seq<char>>,
)
    requires
        r.phase == (PhaseView::Parents { sha, tree, parents: ps0 }),
        forall|i: int| 0 <= i < ps.len() ==> is_sha(#[trigger] ps[i]),
    ensures
        run(r, line_inputs(ps.map_values(|p: Seq<char>| "parent "@ + p))) == (
        ReaderView {
            phase: PhaseView::Parents { sha, tree, parents: ps0 + ps },
            line_no: r.line_no + ps.len(),
        },
        Seq::<Outcome>::empty()),
    decreases ps.len(),
{
    let lines = ps.map_values(|p: Seq<char>| "parent "@ + p);
    let inputs = line_inputs(lines);
    if ps.len() == 0 {
        assert(inputs =~= Seq::<InputView>::empty());
        assert(ps0 + ps =~= ps0);
    } else {
        let front = ps.drop_last();
        assert forall|i: int| 0 <= i < front.len() implies is_sha(#[trigger] front[i]) by {
            assert(front[i] == ps[i]);
        }
        lemma_parent_lines(r, sha, tree, ps0, front);
        assert(inputs.drop_last() =~= line_inputs(front.map_values(|p: Seq<char>| "parent "@ + p)));
        let p = ps.last();
        assert(inputs.last() == InputView::Line("parent "@ + p));
        lemma_keyword_line("parent "@, p);
        assert(is_sha(p)) by {
            assert(p == ps[ps.len() - 1]);
        }
        assert((ps0 + front).push(p) =~= ps0 + ps);
    }
}

/// The raw lines of a message, read after the blank line that opens it.
proof fn lemma_message_lines(r: ReaderView, c: CommitView, m: Seq<Seq<char>>)
    requires
        r.phase == (PhaseView::Message { commit: with_message(c, seq![]), blank_pending: false }),
    ensures
        run(r, line_inputs(m.map_values(|x: Seq<char>| raw_message_line(x)))) == (
        ReaderView { phase: message_state(c, m), line_no: r.line_no + m.len() },
        Seq::<Outcome>::empty()),
    decreases m.len(),
{
    let lines = m.map_values(|x: Seq<char>| raw_message_line(x));
    let inputs = line_inputs(lines);
    if m.len() == 0 {
        assert(inputs =~= Seq::<InputView>::empty());
        assert(m =~= Seq::<Seq<char>>::empty());
    } else {
        let front = m.drop_last();
        let x = m.last();
        lemma_message_lines(r, c, front);
        assert(inputs.drop_last() =~= line_inputs(front.map_values(|x: Seq<char>| raw_message_line(x))));
        assert(inputs.last() == InputView::Line(raw_message_line(x)));
        lemma_literals();
        let line = raw_message_line(x);
        let pending = front.len() > 0 && front.last().len() == 0;
        if pending {
            assert(front.last() =~= Seq::<char>::empty());
            assert(front.drop_last().push(seq![]) =~= front);
            assert(with_message_line(with_message(c, front.drop_last()), seq![]) == with_message(c, front));
        }
        if x.len() == 0 {
            assert(line.len() == 0);
            assert(!is_commit_header_spec(line));
            assert(m.drop_last() =~= front);
        } else {
            lemma_keyword_line("    "@, x);
            assert(line[0] == ' ');
            assert(!is_commit_header_spec(line)) by {
                if has_prefix(line, "commit "@) {
                    assert(line.take(7)[0] == 'c');
                }
            }
            assert(with_message_line(with_message(c, front), x) == with_message(c, m)) by {
                assert(front.push(x) =~= m);
            }
        }
    }
}

/// Where a commit may begin: between commits, or after a message whose last
/// line was blank.
pub open spec fn at_commit_boundary(phase: PhaseView) -> bool {
    phase is Idle || (phase is Message && phase->blank_pending)
}

/// What reaching the next commit hands out: the commit that it ends, if any.
pub open spec fn finished_before(phase: PhaseView) -> Seq<Outcome> {
    if phase is Message {
        seq![Ok(phase->commit)]
    } else {
        seq![]
    }
}

/// The commit and tree lines, read at a commit boundary.
proof fn lemma_head_lines(r: ReaderView, c: CommitView)
    requires
        well_formed_commit(c),
        at_commit_boundary(r.phase),
    ensures
        run(r, line_inputs(seq!["commit "@ + c.sha, "tree "@ + c.tree])) == (
        ReaderView {
            phase: PhaseView::Parents { sha: c.sha, tree: c.tree, parents: seq![] },
            line_no: r.line_no + 2,
        },
        finished_before(r.phase)),
{
    lemma_literals();
    law_sha_is_forty_hex_digits(c.sha);
    law_sha_is_forty_hex_digits(c.tree);
    let header = "commit "@ + c.sha;
    let tree_line = "tree "@ + c.tree;
    lemma_keyword_line("commit "@, c.sha);
    assert(is_commit_header_spec(header));
    lemma_run_one(r, header);
    let (r1, o1) = run(r, line_inputs(seq![header]));
    assert(r1 == ReaderView { phase: PhaseView::Tree { sha: c.sha }, line_no: r.line_no + 1 });
    assert(o1 =~= finished_before(r.phase));
    lemma_keyword_line("tree "@, c.tree);
    lemma_run_one(r1, tree_line);
    let (r2, o2) = run(r1, line_inputs(seq![tree_line]));
    assert(o2 =~= Seq::<Outcome>::empty());
    lemma_run_lines_append(r, seq![header], seq![tree_line]);
    assert(seq![header] + seq![tree_line] =~= seq![header, tree_line]);
    assert(o1 + o2 =~= o1);
}

/// The author, committer and blank lines, read after the parent lines.
proof fn lemma_signature_lines(r: ReaderView, c: CommitView)
    requires
        well_formed_commit(c),
        r.phase == (PhaseView::Parents { sha: c.sha, tree: c.tree, parents: c.parents }),
    ensures
        run(
            r,
            line_inputs(
                seq![
                    "author "@ + signature_text(c.author),
                    "committer "@ + signature_text(c.committer),
                    seq![],
                ],
            ),
        ) == (
        ReaderView {
            phase: PhaseView::Message { commit: with_message(c, seq![]), blank_pending: false },
            line_no: r.line_no + 3,
        },
        Seq::<Outcome>::empty()),
{
    lemma_literals();
    let author_line = "author "@ + signature_text(c.author);
    let committer_line = "committer "@ + signature_text(c.committer);
    let blank: Seq<char> = seq![];
    lemma_keyword_line("author "@, signature_text(c.author));
    assert(!has_prefix(author_line, "parent "@)) by {
        assert(author_line.take(7)[0] == 'a');
    }
    lemma_signature_round_trip(c.author);
    lemma_run_one(r, author_line);
    let (r4, o4) = run(r, line_inputs(seq![author_line]));
    lemma_keyword_line("committer "@, signature_text(c.committer));
    lemma_signature_round_trip(c.committer);
    lemma_run_one(r4, committer_line);
    let (r5, o5) = run(r4, line_inputs(seq![committer_line]));
    lemma_run_one(r5, blank);
    let (r6, o6) = run(r5, line_inputs(seq![blank]));
    assert(r6.phase == PhaseView::Message { commit: with_message(c, seq![]), blank_pending: false });
    lemma_run_lines_append(r, seq![author_line], seq![committer_line]);
    lemma_run_lines_append(r, seq![author_line] + seq![committer_line], seq![blank]);
    assert(seq![author_line] + seq![committer_line] + seq![blank] =~= seq![
        author_line,
        committer_line,
        blank,
    ]);
    assert(o4 + o5 + o6 =~= Seq::<Outcome>::empty());
}

/// The blank line that closes a commit, read after its message.
proof fn lemma_closing_line(r: ReaderView, c: CommitView)
    requires
        r.phase == message_state(c, c.message),
    ensures
        run(r, line_inputs(seq![seq![]])) == (
        ReaderView {
            phase: PhaseView::Message { commit: c, blank_pending: true },
            line_no: r.line_no + 1,
        },
        Seq::<Outcome>::empty()),
{
    lemma_literals();
    lemma_run_one(r, seq![]);
    assert(with_message(c, c.message) == c);
    if c.message.len() > 0 && c.message.last().len() == 0 {
        assert(c.message.last() =~= Seq::<char>::empty());
        assert(c.message.drop_last().push(seq![]) =~= c.message);
        assert(with_message_line(with_message(c, c.message.drop_last()), seq![]) == c);
    }
}

/// The raw lines of a well-formed commit, read at a commit boundary, leave
/// the reader in its message with the closing blank line pending; the only
/// item handed out is the commit before it.
pub proof fn lemma_commit_lines(r: ReaderView, c: CommitView)
    requires
        well_formed_commit(c),
        at_commit_boundary(r.phase),
    ensures
        run(r, line_inputs(raw_commit_lines(c))) == (
        ReaderView {
            phase: PhaseView::Message { commit: c, blank_pending: true },
            line_no: r.line_no + raw_commit_lines(c).len(),
        },
        finished_before(r.phase)),
{
    let a = seq!["commit "@ + c.sha, "tree "@ + c.tree];
    let parents = c.parents.map_values(|p: Seq<char>| "parent "@ + p);
    let b = seq![
        "author "@ + signature_text(c.author),
        "committer "@ + signature_text(c.committer),
        seq![],
    ];
    let message = c.message.map_values(|m: Seq<char>| raw_message_line(m));
    let t: Seq<Seq<char>> = seq![seq![]];
    assert(raw_commit_lines(c) =~= (((a + parents) + b) + message) + t);
    lemma_head_lines(r, c);
    let (r2, o2) = run(r, line_inputs(a));
    assert forall|i: int| 0 <= i < c.parents.len() implies is_sha(#[trigger] c.parents[i]) by {
        law_sha_is_forty_hex_digits(c.parents[i]);
    }
    lemma_parent_lines(r2, c.sha, c.tree, seq![], c.parents);
    assert(Seq::<Seq<char>>::empty() + c.parents =~= c.parents);
    let (r3, o3) = run(r2, line_inputs(parents));
    lemma_run_lines_append(r, a, parents);
    lemma_signature_lines(r3, c);
    let (r6, o6) = run(r3, line_inputs(b));
    lemma_run_lines_append(r, a + parents, b);
    lemma_message_lines(r6, c, c.message);
    let (r7, o7) = run(r6, line_inputs(message));
    lemma_run_lines_append(r, (a + parents) + b, message);
    lemma_closing_line(r7, c);
    let (r8, o8) = run(r7, line_inputs(t));
    lemma_run_lines_append(r, ((a + parents) + b) + message, t);
    assert(o2 + o3 + o6 + o7 + o8 =~= finished_before(r.phase));
}

/// Every commit handed out.
pub open spec fn all_ok(cs: Seq<CommitView>) -> Seq<Outcome> {
    cs.map_values(|c: CommitView| Ok::<CommitView, ParseErrorView>(c))
}

/// The lines of a log of well-formed commits leave a fresh reader in the last
/// commit's message, having handed out every commit before it.
proof fn lemma_raw_log_lines(cs: Seq<CommitView>)
    requires
        forall|i: int| 0 <= i < cs.len() ==> well_formed_commit(#[trigger] cs[i]),
    ensures
        run(fresh_reader(), line_inputs(raw_log(cs))) == (
        ReaderView {
            phase: if cs.len() == 0 {
                PhaseView::Idle
            } else {
                PhaseView::Message { commit: cs.last(), blank_pending: true }
            },
            line_no: raw_log(cs).len(),
        },
        if cs.len() == 0 {
            Seq::<Outcome>::empty()
        } else {
            all_ok(cs.drop_last())
        }),
    decreases cs.len(),
{
    if cs.len() == 0 {
        assert(line_inputs(raw_log(cs)) =~= Seq::<InputView>::empty());
    } else {
        let front = cs.drop_last();
        assert forall|i: int| 0 <= i < front.len() implies well_formed_commit(#[trigger] front[i]) by {
            assert(front[i] == cs[i]);
        }
        lemma_raw_log_lines(front);
        let (mid, o1) = run(fresh_reader(), line_inputs(raw_log(front)));
        assert(well_formed_commit(cs.last())) by {
            assert(cs.last() == cs[cs.len() - 1]);
        }
        lemma_commit_lines(mid, cs.last());
        lemma_run_lines_append(fresh_reader(), raw_log(front), raw_commit_lines(cs.last()));
        if front.len() == 0 {
            assert(o1 + finished_before(mid.phase) =~= all_ok(cs.drop_last()));
        } else {
            assert(front.drop_last().push(front.last()) =~= front);
            assert(o1 + finished_before(mid.phase) =~= all_ok(cs.drop_last()));
        }
    }
}

/// Reading the raw form of well-formed commits, one after the other, gives
/// back exactly those commits, in order, and nothing else.
pub proof fn law_raw_log_round_trip(cs: Seq<CommitView>)
    requires
        forall|i: int| 0 <= i < cs.len() ==> well_formed_commit(#[trigger] cs[i]),
    ensures
        parse_log_spec(raw_log(cs)) == all_ok(cs),
{
    let lines = raw_log(cs);
    let inputs = log_inputs(lines);
    assert(inputs.drop_last() =~= line_inputs(lines));
    assert(inputs.last() == InputView::End);
    lemma_raw_log_lines(cs);
    if cs.len() > 0 {
        assert(all_ok(cs.drop_last()) + seq![Ok::<CommitView, ParseErrorView>(cs.last())] =~= all_ok(cs));
    } else {
        assert(all_ok(cs) =~= Seq::<Outcome>::empty());
    }
}



// ---------------------------------------------------------------------------
// Printing gives back the raw message lines
// ---------------------------------------------------------------------------

/// Lines joined into text, each followed by a newline.
pub open spec fn lines_text(ls: Seq<Seq<char>>) -> Seq<char>
    decreases ls.len(),
{
    if ls.len() == 0 {
        seq![]
    } else {
        lines_text(ls.drop_last()) + ls.last() + "\n"@
    }
}

/// Printing a message writes exactly its raw message lines: each non-empty
/// line indented by four spaces again, each empty line empty; and no raw
/// message line is exactly four spaces.
pub proof fn law_printed_message_is_raw(m: Seq<Seq<char>>)
    ensures
        message_lines(m) == lines_text(m.map_values(|x: Seq<char>| raw_message_line(x))),
        forall|i: int| 0 <= i < m.len() ==> raw_message_line(#[trigger] m[i]) != "    "@,
    decreases m.len(),
{
    lemma_literals();
    let raw = m.map_values(|x: Seq<char>| raw_message_line(x));
    if m.len() > 0 {
        law_printed_message_is_raw(m.drop_last());
        assert(raw.drop_last() =~= m.drop_last().map_values(|x: Seq<char>| raw_message_line(x)));
        let x = m.last();
        if x.len() == 0 {
            assert(raw_message_line(x) + "\n"@ =~= "\n"@);
        } else {
            assert(lines_text(raw) =~= message_lines(m));
        }
    } else {
        assert(raw =~= Seq::<Seq<char>>::empty());
    }
    assert forall|i: int| 0 <= i < m.len() implies raw_message_line(#[trigger] m[i]) != "    "@ by {
        if m[i].len() > 0 {
            assert(raw_message_line(m[i]).len() > 4);
        }
    }
}

/// Each commit handed out when reading the raw lines of well-formed commits
/// prints its message as exactly the raw message lines it was read from.
pub proof fn law_printed_message_of_read_commit(cs: Seq<CommitView>, i: int)
    requires
        forall|j: int| 0 <= j < cs.len() ==> well_formed_commit(#[trigger] cs[j]),
        0 <= i < cs.len(),
    ensures
        parse_log_spec(raw_log(cs))[i] == Ok::<CommitView, ParseErrorView>(cs[i]),
        message_lines(cs[i].message) == lines_text(
            cs[i].message.map_values(|x: Seq<char>| raw_message_line(x)),
        ),
{
    law_raw_log_round_trip(cs);
    law_printed_message_is_raw(cs[i].message);
}

/// A message line read from the raw format and printed again comes back as
/// it was read, unless it was exactly four spaces (which prints as an empty
/// line): the reader keeps what follows the four-space indent, and printing
/// puts the indent back.
pub proof fn law_message_line_restored(c: CommitView, n: nat, line: Seq<char>)
    requires
        has_prefix(line, "    "@),
        line != "    "@,
    ensures
        crate::parser::message_line_spec(c, n, line) == (
        PhaseView::Message {
            commit: with_message_line(c, line.skip("    "@.len() as int)),
            blank_pending: false,
        },
        Seq::<Outcome>::empty()),
        raw_message_line(line.skip("    "@.len() as int)) == line,
{
    lemma_literals();
    assert(line.take(4) =~= "    "@);
    if line.len() == 4 {
        assert(line =~= "    "@);
    }
    assert("    "@ + line.skip(4) =~= line);
}


// ---------------------------------------------------------------------------
// Printing gives back the lines a message was read from, for any input
// ---------------------------------------------------------------------------

/// A message line as printing writes it back: a line of exactly four spaces
/// (read as an empty message line) comes back empty, any other line as it is.
pub open spec fn as_printed(l: Seq<char>) -> Seq<char> {
    if l == "    "@ {
        seq![]
    } else {
        l
    }
}

/// The input lines `lines[s..e]` are the raw lines of message `m`, up to
/// lines of exactly four spaces, which stand for empty lines.
pub open spec fn message_block(lines: Seq<Seq<char>>, s: int, e: int, m: Seq<Seq<char>>) -> bool {
    &&& 0 <= s <= e <= lines.len()
    &&& lines.subrange(s, e).map_values(|l: Seq<char>| as_printed(l)) == m.map_values(
        |x: Seq<char>| raw_message_line(x),
    )
}

/// The reader's message, if it is in one, was read from the lines from `s`
/// up to line `k`, or up to line `k - 1` when the blank line `k - 1` is pending.
pub open spec fn phase_tracked(lines: Seq<Seq<char>>, k: int, phase: PhaseView, s: int) -> bool {
    match phase {
        PhaseView::Message { commit, blank_pending } => if blank_pending {
            &&& 1 <= k <= lines.len()
            &&& lines[k - 1].len() == 0
            &&& message_block(lines, s, k - 1, commit.message)
        } else {
            message_block(lines, s, k, commit.message)
        },
        _ => true,
    }
}

/// Every commit among `o` has its message read from a block of `lines`.
pub open spec fn outcomes_tracked(lines: Seq<Seq<char>>, o: Seq<Outcome>) -> bool {
    forall|i: int|
        0 <= i < o.len() && (#[trigger] o[i]) is Ok ==> exists|s: int, e: int|
            #[trigger] message_block(lines, s, e, o[i]->Ok_0.message)
}

proof fn lemma_block_empty(lines: Seq<Seq<char>>, k: int)
    requires
        0 <= k <= lines.len(),
    ensures
        message_block(lines, k, k, seq![]),
{
    assert(lines.subrange(k, k).map_values(|l: Seq<char>| as_printed(l)) =~= Seq::<Seq<char>>::empty()
        .map_values(|x: Seq<char>| raw_message_line(x)));
}

proof fn lemma_block_extend(lines: Seq<Seq<char>>, s: int, e: int, m: Seq<Seq<char>>, x: Seq<char>)
    requires
        message_block(lines, s, e, m),
        e < lines.len(),
        as_printed(lines[e]) == raw_message_line(x),
    ensures
        message_block(lines, s, e + 1, m.push(x)),
{
    assert(lines.subrange(s, e + 1).map_values(|l: Seq<char>| as_printed(l)) =~= lines.subrange(s, e).map_values(
        |l: Seq<char>| as_printed(l),
    ).push(as_printed(lines[e])));
    assert(m.push(x).map_values(|x: Seq<char>| raw_message_line(x)) =~= m.map_values(
        |x: Seq<char>| raw_message_line(x),
    ).push(raw_message_line(x)));
}

/// An indented line, read as a message line, prints back as itself.
proof fn lemma_indented_as_printed(l: Seq<char>)
    requires
        has_prefix(l, "    "@),
    ensures
        as_printed(l) == raw_message_line(l.skip("    "@.len() as int)),
{
    lemma_literals();
    if l == "    "@ {
        assert(l.skip(4) =~= Seq::<char>::empty());
    } else {
        assert(l.take(4) =~= "    "@);
        if l.len() == 4 {
            assert(l =~= "    "@);
        }
        assert("    "@ + l.skip(4) =~= l);
    }
}

proof fn lemma_outcomes_tracked_concat(lines: Seq<Seq<char>>, a: Seq<Outcome>, b: Seq<Outcome>)
    requires
        outcomes_tracked(lines, a),
        outcomes_tracked(lines, b),
    ensures
        outcomes_tracked(lines, a + b),
{
    let o = a + b;
    assert forall|i: int| 0 <= i < o.len() && (#[trigger] o[i]) is Ok implies exists|s: int, e: int|
        #[trigger] message_block(lines, s, e, o[i]->Ok_0.message) by {
        if i < a.len() {
            assert(o[i] == a[i]);
        } else {
            assert(o[i] == b[i - a.len()]);
        }
    }
}

/// A single commit whose message was read from a block.
proof fn lemma_single_tracked(lines: Seq<Seq<char>>, c: CommitView, s: int, e: int)
    requires
        message_block(lines, s, e, c.message),
    ensures
        outcomes_tracked(lines, seq![Ok::<CommitView, ParseErrorView>(c)]),
{
    let o = seq![Ok::<CommitView, ParseErrorView>(c)];
    assert forall|i: int| 0 <= i < o.len() && (#[trigger] o[i]) is Ok implies exists|s2: int, e2: int|
        #[trigger] message_block(lines, s2, e2, o[i]->Ok_0.message) by {
        assert(o[i]->Ok_0 == c);
        assert(message_block(lines, s, e, o[i]->Ok_0.message));
    }
}

/// A commit handed out ahead of what opening the next one hands out.
proof fn lemma_commit_then_begin(lines: Seq<Seq<char>>, c: CommitView, s: int, e: int, n: nat, l: Seq<char>)
    requires
        message_block(lines, s, e, c.message),
    ensures
        outcomes_tracked(lines, seq![Ok::<CommitView, ParseErrorView>(c)] + begin_commit_spec(n, l).1),
        !(begin_commit_spec(n, l).0 is Message),
{
    lemma_begin_commit_shape(n, l);
    let o = begin_commit_spec(n, l).1;
    lemma_single_tracked(lines, c, s, e);
    lemma_outcomes_tracked_concat(lines, seq![Ok::<CommitView, ParseErrorView>(c)], o);
}

/// Reading message line `k` with no blank line pending.
proof fn lemma_tracked_message_line(lines: Seq<Seq<char>>, k: int, c: CommitView, s: int, n: nat)
    requires
        0 <= k < lines.len(),
        message_block(lines, s, k, c.message),
    ensures
        phase_tracked(lines, k + 1, message_line_spec(c, n, lines[k]).0, s),
        outcomes_tracked(lines, message_line_spec(c, n, lines[k]).1),
{
    let l = lines[k];
    if l.len() == 0 {
        assert(message_block(lines, s, (k + 1) - 1, c.message));
        assert(message_line_spec(c, n, l).0 == PhaseView::Message { commit: c, blank_pending: true });
    } else if has_prefix(l, "    "@) {
        let x = l.skip("    "@.len() as int);
        lemma_indented_as_printed(l);
        lemma_block_extend(lines, s, k, c.message, x);
        assert(with_message_line(c, x).message == c.message.push(x));
        assert(message_line_spec(c, n, l).0 == PhaseView::Message {
            commit: with_message_line(c, x),
            blank_pending: false,
        });
        assert(message_block(lines, s, k + 1, with_message_line(c, x).message));
    } else {
        lemma_commit_then_begin(lines, c, s, k, n, l);
    }
}

/// One line read keeps every handed-out message tied to its input lines.
proof fn lemma_tracked_step(lines: Seq<Seq<char>>, k: int, r: ReaderView, s: int) -> (s2: int)
    requires
        0 <= k < lines.len(),
        phase_tracked(lines, k, r.phase, s),
    ensures
        phase_tracked(lines, k + 1, reader_step(r, InputView::Line(lines[k])).0.phase, s2),
        outcomes_tracked(lines, reader_step(r, InputView::Line(lines[k])).1),
{
    let l = lines[k];
    let n = r.line_no + 1;
    lemma_begin_commit_shape(n, l);
    match r.phase {
        PhaseView::Separator { sha, tree, parents, author, committer } => {
            lemma_block_empty(lines, k + 1);
            let c = CommitView { sha, tree, parents, author, committer, message: seq![] };
            assert(message_block(lines, k + 1, k + 1, c.message));
            k + 1
        },
        PhaseView::Message { commit, blank_pending } => {
            if !blank_pending {
                lemma_tracked_message_line(lines, k, commit, s, n);
                s
            } else {
                if is_commit_header_spec(l) {
                    lemma_commit_then_begin(lines, commit, s, k - 1, n, l);
                } else {
                    assert(lines[k - 1] =~= Seq::<char>::empty());
                    lemma_literals();
                    lemma_block_extend(lines, s, k - 1, commit.message, seq![]);
                    let c2 = with_message_line(commit, seq![]);
                    assert(c2.message == commit.message.push(seq![]));
                    lemma_tracked_message_line(lines, k, c2, s, n);
                }
                s
            }
        },
        _ => s,
    }
}

/// Reading the first `k` lines of a log from a fresh reader.
proof fn lemma_tracked_prefix(lines: Seq<Seq<char>>, k: int) -> (s: int)
    requires
        0 <= k <= lines.len(),
    ensures
        phase_tracked(lines, k, run(fresh_reader(), line_inputs(lines.take(k))).0.phase, s),
        outcomes_tracked(lines, run(fresh_reader(), line_inputs(lines.take(k))).1),
    decreases k,
{
    let inputs = line_inputs(lines.take(k));
    if k == 0 {
        assert(inputs =~= Seq::<InputView>::empty());
        0
    } else {
        let s = lemma_tracked_prefix(lines, k - 1);
        assert(inputs.drop_last() =~= line_inputs(lines.take(k - 1)));
        assert(inputs.last() == InputView::Line(lines[k - 1]));
        let (mid, o1) = run(fresh_reader(), line_inputs(lines.take(k - 1)));
        let s2 = lemma_tracked_step(lines, k - 1, mid, s);
        lemma_outcomes_tracked_concat(lines, o1, reader_step(mid, InputView::Line(lines[k - 1])).1);
        s2
    }
}

/// Every commit handed out when reading any log prints its message as exactly
/// the input lines it was read from: a block of consecutive lines of the log,
/// with each line of exactly four spaces printed as an empty line.
pub proof fn law_printed_message_restores_input(lines: Seq<Seq<char>>, i: int)
    requires
        0 <= i < parse_log_spec(lines).len(),
        parse_log_spec(lines)[i] is Ok,
    ensures
        exists|s: int, e: int|
            #[trigger] message_block(lines, s, e, parse_log_spec(lines)[i]->Ok_0.message)
                && message_lines(parse_log_spec(lines)[i]->Ok_0.message) == lines_text(
                lines.subrange(s, e).map_values(|l: Seq<char>| as_printed(l)),
            ),
{
    let k = lines.len() as int;
    let s0 = lemma_tracked_prefix(lines, k);
    assert(lines.take(k) =~= lines);
    let inputs = log_inputs(lines);
    assert(inputs.drop_last() =~= line_inputs(lines));
    assert(inputs.last() == InputView::End);
    let (mid, o1) = run(fresh_reader(), line_inputs(lines));
    let o2 = end_step_spec(mid.phase, mid.line_no).1;
    match mid.phase {
        PhaseView::Message { commit, blank_pending } => {
            if blank_pending {
                lemma_single_tracked(lines, commit, s0, k - 1);
            } else {
                lemma_single_tracked(lines, commit, s0, k);
            }
        },
        _ => {
            assert(outcomes_tracked(lines, o2));
        },
    }
    lemma_outcomes_tracked_concat(lines, o1, o2);
    let o = parse_log_spec(lines);
    let c = o[i]->Ok_0;
    let (s, e) = choose|s: int, e: int| #[trigger] message_block(lines, s, e, c.message);
    law_printed_message_is_raw(c.message);
}

} // verus!
