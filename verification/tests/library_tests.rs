use lib::model::{Commit, Signature};
use lib::parser::{parse_log, CommitReader, Input, ParseError};
use lib::printer::{civil_from_days, format_timestamp, pretty_print};

const SHA1: &str = "3f7e8a2b1c9d0e4f5a6b7c8d9e0f1a2b3c4d5e6f";
const TREE1: &str = "9a8b7c6d5e4f3a2b1c0d9e8f7a6b5c4d3e2f1a0b";
const PARENT1: &str = "1a2b3c4d5e6f7a8b9c0d1e2f3a4b5c6d7e8f9a0b";
const PARENT2: &str = "ABCDEFabcdef0123456789ABCDEFabcdef012345";

fn lines_of(input: &str) -> Vec<String> {
    input.lines().map(|l| l.to_string()).collect()
}

fn stream(input: &str) -> Vec<Result<Commit, ParseError>> {
    let mut reader = CommitReader::new();
    let mut out = Vec::new();
    for line in input.lines() {
        out.extend(reader.feed(Input::Line(line.to_string())));
    }
    out.extend(reader.feed(Input::End));
    out
}

fn only_error(input: &str) -> (usize, String) {
    let results = stream(input);
    assert_eq!(results.len(), 1, "expected one item from {:?}", input);
    match &results[0] {
        Err(ParseError::Malformed { line, reason }) => (*line, reason.clone()),
        other => panic!("expected a malformed-input error, got {:?}", other),
    }
}

fn header() -> String {
    format!("commit {}\ntree {}\n", SHA1, TREE1)
}

fn sig(name: &str, email: &str, ts: i64, tz: i32) -> Signature {
    Signature { name: name.to_string(), email: email.to_string(), timestamp: ts, tz_offset_minutes: tz }
}

fn tz_text(minutes: i32) -> String {
    let a = minutes.unsigned_abs();
    format!("{}{:02}{:02}", if minutes < 0 { '-' } else { '+' }, a / 60, a % 60)
}

/// The raw form of a commit, closed by a blank line.
fn raw(c: &Commit) -> String {
    let mut s = format!("commit {}\ntree {}\n", c.sha, c.tree);
    for p in &c.parents {
        s.push_str(&format!("parent {}\n", p));
    }
    for (kw, g) in [("author", &c.author), ("committer", &c.committer)] {
        s.push_str(&format!("{} {} <{}> {} {}\n", kw, g.name, g.email, g.timestamp, tz_text(g.tz_offset_minutes)));
    }
    s.push('\n');
    for m in &c.message {
        if m.is_empty() {
            s.push('\n');
        } else {
            s.push_str(&format!("    {}\n", m));
        }
    }
    s.push('\n');
    s
}

fn same(a: &Commit, b: &Commit) -> bool {
    let sig_eq = |x: &Signature, y: &Signature| {
        x.name == y.name && x.email == y.email && x.timestamp == y.timestamp
            && x.tz_offset_minutes == y.tz_offset_minutes
    };
    a.sha == b.sha && a.tree == b.tree && a.parents == b.parents && sig_eq(&a.author, &b.author)
        && sig_eq(&a.committer, &b.committer) && a.message == b.message
}

fn sample_commits() -> Vec<Commit> {
    vec![
        Commit {
            sha: SHA1.to_string(),
            tree: TREE1.to_string(),
            parents: vec![],
            author: sig("Jane Doe", "jane@example.com", 1_700_000_000, -300),
            committer: sig("J. R. \"Bob\" Dobbs", "bob<x@example.com", -42, 330),
            message: vec![
                "Subject".to_string(),
                "".to_string(),
                "".to_string(),
                "    indented body".to_string(),
                format!("commit {}", SHA1),
                "".to_string(),
            ],
        },
        Commit {
            sha: PARENT1.to_string(),
            tree: PARENT2.to_string(),
            parents: vec![SHA1.to_string(), PARENT2.to_string()],
            author: sig("A", "", i64::MIN, 5999),
            committer: sig("Zoë Ünïcode", "z@z", i64::MAX, -5999),
            message: vec![],
        },
        Commit {
            sha: TREE1.to_string(),
            tree: TREE1.to_string(),
            parents: vec![PARENT1.to_string()],
            author: sig("x", "x@x", 0, 0),
            committer: sig("y", "y@y", 1, -1),
            message: vec!["".to_string()],
        },
    ]
}

#[test]
fn raw_log_round_trips_well_formed_commits() {
    let commits = sample_commits();
    let text: String = commits.iter().map(raw).collect();
    let streamed = stream(&text);
    assert_eq!(streamed.len(), commits.len());
    for (got, want) in streamed.iter().zip(commits.iter()) {
        assert!(same(got.as_ref().unwrap(), want), "{:?} != {:?}", got, want);
    }
    let batch = parse_log(&lines_of(&text));
    assert_eq!(batch.len(), commits.len());
    for (got, want) in batch.iter().zip(commits.iter()) {
        assert!(same(got.as_ref().unwrap(), want));
    }
}

#[test]
fn a_trailing_blank_line_at_the_end_of_input_is_dropped() {
    let input = format!("{}author a <a@a> 1 +0000\ncommitter a <a@a> 1 +0000\n\n    body\n\n", header());
    let results = stream(&input);
    assert_eq!(results[0].as_ref().unwrap().message, vec!["body".to_string()]);
}

#[test]
fn nothing_follows_the_first_error() {
    let good = format!("{}author a <a@a> 1 +0000\ncommitter a <a@a> 1 +0000\n\n    ok\n", header());
    let input = format!("{}author broken\ncommitter a <a@a> 1 +0000\n\n    x\n\n{}", header(), good);
    let results = stream(&input);
    assert_eq!(results.len(), 1);
    assert!(results[0].is_err());
}

#[test]
fn a_commit_ended_by_a_stray_line_is_followed_by_its_error() {
    let input = format!("{}author a <a@a> 1 +0000\ncommitter a <a@a> 1 +0000\n\n    body\nstray\n", header());
    let results = stream(&input);
    assert_eq!(results.len(), 2);
    assert_eq!(results[0].as_ref().unwrap().message, vec!["body".to_string()]);
    match &results[1] {
        Err(ParseError::Malformed { line, reason }) => {
            assert_eq!(*line, 7);
            assert_eq!(reason, "expected a line starting with \"commit \", found \"stray\"");
        },
        other => panic!("unexpected {:?}", other),
    }
}

#[test]
fn error_texts_are_exact() {
    let (line, reason) = only_error("commit not-a-sha\n");
    assert_eq!(line, 1);
    assert_eq!(reason, "commit id \"not-a-sha\" is not a 40-character hex sha");
    let (line, reason) = only_error(&format!("commit {}\ntree x\n", SHA1));
    assert_eq!(line, 2);
    assert_eq!(reason, "tree id \"x\" is not a 40-character hex sha");
    let (line, reason) = only_error(&format!("{}author a <a@a> 1 +0000\nnope\n", header()));
    assert_eq!(line, 4);
    assert_eq!(reason, "expected a line starting with \"committer \", found \"nope\"");
    let (line, reason) = only_error(&format!("{}author a <a@a> 1 +0000\ncommitter a <a@a> 1 +0000\nx\n", header()));
    assert_eq!(line, 5);
    assert_eq!(reason, "expected a blank line before the message, found \"x\"");
    let (line, reason) = only_error(&format!("{}author a <a@a> 1\n", header()));
    assert_eq!(line, 3);
    assert_eq!(reason, "author line is missing a timezone");
    let (_, reason) = only_error(&format!("{}author a <a@a> 1 +0000\ncommitter a <a@a> 1 +2460\n", header()));
    assert_eq!(reason, "committer line has an invalid timezone \"+2460\"");
    let (_, reason) = only_error(&format!("{}author a <a@a> 9223372036854775808 +0000\n", header()));
    assert_eq!(reason, "author line has an invalid timestamp \"9223372036854775808\"");
    let (line, reason) = only_error(&format!("{}author a <a@a> 1 +0000\n", header()));
    assert_eq!(line, 3);
    assert_eq!(reason, "unexpected end of input");
    let (_, reason) = only_error(&format!("{}parent {}\nsay \"hi\"\n", header(), PARENT1));
    assert_eq!(reason, "expected a line starting with \"author \", found \"say \\\"hi\\\"\"");
}

#[test]
fn malformed_error_text_names_the_line() {
    let e = ParseError::Malformed { line: 42, reason: "author line missing '<'".to_string() };
    assert_eq!(e.to_string(), "line 42: author line missing '<'");
}

#[test]
fn read_errors_stop_the_reader() {
    let mut reader = CommitReader::new();
    assert!(reader.feed(Input::Line(String::new())).is_empty());
    let out = reader.feed(Input::ReadError(std::io::Error::new(std::io::ErrorKind::Other, "boom")));
    assert_eq!(out.len(), 1);
    match &out[0] {
        Err(e @ ParseError::Io(_)) => assert_eq!(e.to_string(), "io error: boom"),
        other => panic!("unexpected {:?}", other),
    }
    assert_eq!(reader.lines_read(), 2);
    assert!(reader.feed(Input::Line(format!("commit {}", SHA1))).is_empty());
    assert!(reader.feed(Input::End).is_empty());
}

#[test]
fn signature_fields_follow_white_space_rules() {
    let input = format!(
        "{}author \u{a0} Jane\tDoe \t<j@e>\t+17\t \u{2003}-0000 \ncommitter a <a@a> -9223372036854775808 +9959\n\n",
        header()
    );
    let results = stream(&input);
    let c = results[0].as_ref().unwrap();
    assert_eq!(c.author.name, "Jane\tDoe");
    assert_eq!(c.author.email, "j@e");
    assert_eq!(c.author.timestamp, 17);
    assert_eq!(c.author.tz_offset_minutes, 0);
    assert_eq!(c.committer.timestamp, i64::MIN);
    assert_eq!(c.committer.tz_offset_minutes, 5999);
    assert!(c.message.is_empty());
}

#[test]
fn four_spaces_alone_make_an_empty_message_line() {
    let input = format!("{}author a <a@a> 1 +0000\ncommitter a <a@a> 1 +0000\n\n    a\n    \n    b\n", header());
    let results = stream(&input);
    assert_eq!(results[0].as_ref().unwrap().message, vec!["a".to_string(), "".to_string(), "b".to_string()]);
}

#[test]
fn lines_read_counts_every_line() {
    let mut reader = CommitReader::new();
    for line in lines_of(&format!("\n\n{}", header())) {
        reader.feed(Input::Line(line));
    }
    assert_eq!(reader.lines_read(), 4);
}

#[test]
fn pretty_prints_the_readme_example() {
    let input = [
        "commit 3f7e8a2b1c9d0e4f5a6b7c8d9e0f1a2b3c4d5e6f\n",
        "tree 9a8b7c6d5e4f3a2b1c0d9e8f7a6b5c4d3e2f1a0b\n",
        "parent 1a2b3c4d5e6f7a8b9c0d1e2f3a4b5c6d7e8f9a0b\n",
        "author Jane Doe <jane@example.com> 1700000000 -0500\n",
        "committer Jane Doe <jane@example.com> 1700000000 -0500\n",
        "\n",
        "    Fix off-by-one in the tokenizer\n",
        "\n",
        "    The loop condition used <= instead of <, which read one byte\n",
        "    past the end of the buffer on the last token.\n",
    ]
    .concat();
    let expected = [
        "commit 3f7e8a2b1c9d0e4f5a6b7c8d9e0f1a2b3c4d5e6f\n",
        "tree   9a8b7c6d5e4f3a2b1c0d9e8f7a6b5c4d3e2f1a0b\n",
        "parent 1a2b3c4d5e6f7a8b9c0d1e2f3a4b5c6d7e8f9a0b\n",
        "Author:     Jane Doe <jane@example.com>\n",
        "AuthorDate: 2023-11-14T17:13:20-05:00\n",
        "Committer:  Jane Doe <jane@example.com>\n",
        "CommitDate: 2023-11-14T17:13:20-05:00\n",
        "\n",
        "    Fix off-by-one in the tokenizer\n",
        "\n",
        "    The loop condition used <= instead of <, which read one byte\n",
        "    past the end of the buffer on the last token.\n",
    ]
    .concat();
    let results = stream(&input);
    assert_eq!(results.len(), 1);
    assert_eq!(pretty_print(results[0].as_ref().unwrap()), expected);
}

#[test]
fn pretty_print_lists_every_parent() {
    let c = Commit {
        sha: SHA1.to_string(),
        tree: TREE1.to_string(),
        parents: vec![PARENT1.to_string(), PARENT2.to_string()],
        author: sig("A", "a@a", 0, 0),
        committer: sig("B", "b@b", 86_399, 60),
        message: vec![],
    };
    let expected = format!(
        "commit {}\ntree   {}\nparent {}\nparent {}\nAuthor:     A <a@a>\nAuthorDate: 1970-01-01T00:00:00+00:00\nCommitter:  B <b@b>\nCommitDate: 1970-01-02T00:59:59+01:00\n\n",
        SHA1, TREE1, PARENT1, PARENT2
    );
    assert_eq!(pretty_print(&c), expected);
}

#[test]
fn formats_timestamps_in_their_zone() {
    assert_eq!(format_timestamp(0, 0), "1970-01-01T00:00:00+00:00");
    assert_eq!(format_timestamp(-1, 0), "1969-12-31T23:59:59+00:00");
    assert_eq!(format_timestamp(951_782_400, 0), "2000-02-29T00:00:00+00:00");
    assert_eq!(format_timestamp(951_782_400, -1), "2000-02-28T23:59:00-00:01");
    assert_eq!(format_timestamp(1_700_000_000, 330), "2023-11-15T03:43:20+05:30");
    assert_eq!(format_timestamp(-62_135_596_800, 0), "0001-01-01T00:00:00+00:00");
    assert_eq!(format_timestamp(-62_167_219_201, 0), "-001-12-31T23:59:59+00:00");
    assert_eq!(format_timestamp(253_402_300_800, 0), "10000-01-01T00:00:00+00:00");
    assert_eq!(format_timestamp(4_107_542_400, 0), "2100-03-01T00:00:00+00:00");
}

#[test]
fn converts_day_numbers_to_dates() {
    assert_eq!(civil_from_days(0), (1970, 1, 1));
    assert_eq!(civil_from_days(-1), (1969, 12, 31));
    assert_eq!(civil_from_days(11_016), (2000, 2, 29));
    assert_eq!(civil_from_days(11_017), (2000, 3, 1));
    assert_eq!(civil_from_days(-719_468), (0, 3, 1));
    assert_eq!(civil_from_days(-719_469), (0, 2, 29));
    assert_eq!(civil_from_days(47_540), (2100, 2, 28));
    assert_eq!(civil_from_days(47_541), (2100, 3, 1));
}

#[test]
fn leading_blank_lines_only_move_error_line_numbers() {
    let (line, reason) = only_error("commit not-a-sha\n");
    let (line2, reason2) = only_error("\n\n\ncommit not-a-sha\n");
    assert_eq!(line, 1);
    assert_eq!(line2, 4);
    assert_eq!(reason, reason2);
}

#[test]
fn batch_and_streaming_reads_agree() {
    let input = format!("\n{}author a <a@a> 1 +0000\ncommitter a <a@a> 1 +0000\n\n    m\nbad\n", header());
    let streamed = stream(&input);
    let batch = parse_log(&lines_of(&input));
    assert_eq!(streamed.len(), 2);
    assert_eq!(batch.len(), 2);
    assert_eq!(batch[0].as_ref().unwrap().message, streamed[0].as_ref().unwrap().message);
    match (&batch[1], &streamed[1]) {
        (Err(a), Err(b)) => assert_eq!(a.to_string(), b.to_string()),
        _ => panic!("expected errors"),
    }
    assert_eq!(batch[1].as_ref().unwrap_err().to_string(), "line 8: expected a line starting with \"commit \", found \"bad\"");
}

#[test]
fn only_blank_lines_hand_out_nothing() {
    assert!(stream("\n\n\n").is_empty());
    assert!(parse_log(&lines_of("\n\n")).is_empty());
    let results = stream("\n\nx\n");
    assert_eq!(results.len(), 1);
    assert!(results[0].is_err());
    let results = stream(&format!("\n{}", header()));
    assert_eq!(results.len(), 1);
    assert!(results[0].is_err());
}

#[test]
fn printing_restores_raw_message_lines() {
    let body = ["    Subject\n", "\n", "      indented\n", "    \n", "    end\n"].concat();
    let input = format!("{}author a <a@a> 0 +0000\ncommitter a <a@a> 0 +0000\n\n{}", header(), body);
    let results = stream(&input);
    let printed = pretty_print(results[0].as_ref().unwrap());
    // the four-space line comes back as an empty line; every other line as it was read
    assert!(printed.ends_with("\n    Subject\n\n      indented\n\n    end\n"));
}

#[test]
fn blank_lines_after_a_commit_add_no_items() {
    // only the last blank line before the end is dropped; the others are
    // blank message lines
    let input = format!("{}author a <a@a> 1 +0000\ncommitter a <a@a> 1 +0000\n\n    m\n\n\n\n", header());
    let results = stream(&input);
    assert_eq!(results.len(), 1);
    assert_eq!(
        results[0].as_ref().unwrap().message,
        vec!["m".to_string(), "".to_string(), "".to_string()]
    );
    let mut reader = CommitReader::new();
    assert!(reader.feed(Input::Line("x".to_string())).len() == 1);
    assert!(reader.feed(Input::Line(format!("commit {}", SHA1))).is_empty());
    assert!(reader.feed(Input::End).is_empty());
}
