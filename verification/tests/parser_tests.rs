use lib::model::Commit;
use lib::parser::{is_hex_sha, parse_tz_offset, CommitReader, Input, ParseError};

const SHA1: &str = "3f7e8a2b1c9d0e4f5a6b7c8d9e0f1a2b3c4d5e6f";
const TREE1: &str = "9a8b7c6d5e4f3a2b1c0d9e8f7a6b5c4d3e2f1a0b";
const PARENT1: &str = "1a2b3c4d5e6f7a8b9c0d1e2f3a4b5c6d7e8f9a0b";

/// Feeds `input` line by line (split as `BufRead::lines` splits) and collects
/// every item handed out.
fn parse_all(input: &str) -> Vec<Result<Commit, ParseError>> {
    let mut reader = CommitReader::new();
    let mut out = Vec::new();
    for line in input.lines() {
        out.extend(reader.feed(Input::Line(line.to_string())));
    }
    out.extend(reader.feed(Input::End));
    out
}

fn one_error(input: &str) -> ParseError {
    let mut results = parse_all(input);
    assert_eq!(results.len(), 1, "expected exactly one item from {:?}", input);
    match results.pop().unwrap() {
        Ok(_) => panic!("expected an error from {:?}", input),
        Err(e) => e,
    }
}

fn err_line(e: &ParseError) -> usize {
    match e {
        ParseError::Malformed { line, .. } => *line,
        ParseError::Io(_) => panic!("expected a Malformed error, got Io"),
    }
}

fn basic_commit(extra_parents: &str, message: &str) -> String {
    format!(
        "commit {sha}\ntree {tree}\n{parents}author Jane Doe <jane@example.com> 1700000000 -0500\ncommitter Jane Doe <jane@example.com> 1700000000 -0500\n\n{message}",
        sha = SHA1,
        tree = TREE1,
        parents = extra_parents,
        message = message,
    )
}

#[test]
fn parses_a_well_formed_commit() {
    let input = basic_commit("", "    Fix off-by-one in the tokenizer\n");
    let results = parse_all(&input);
    assert_eq!(results.len(), 1);
    let commit = results[0].as_ref().unwrap();
    assert_eq!(commit.sha, SHA1);
    assert_eq!(commit.tree, TREE1);
    assert!(commit.parents.is_empty());
    assert_eq!(commit.author.name, "Jane Doe");
    assert_eq!(commit.author.email, "jane@example.com");
    assert_eq!(commit.author.timestamp, 1_700_000_000);
    assert_eq!(commit.author.tz_offset_minutes, -300);
    assert_eq!(commit.message, vec!["Fix off-by-one in the tokenizer".to_string()]);
}

#[test]
fn parses_a_merge_commit_with_multiple_parents() {
    let parents = format!("parent {p}\nparent {p}\n", p = PARENT1);
    let input = basic_commit(&parents, "    Merge branch 'foo'\n");
    let results = parse_all(&input);
    assert_eq!(results.len(), 1);
    let commit = results[0].as_ref().unwrap();
    assert_eq!(commit.parents, vec![PARENT1.to_string(), PARENT1.to_string()]);
}

#[test]
fn preserves_blank_paragraph_breaks_inside_the_message() {
    let input = basic_commit("", "    First paragraph.\n\n    Second paragraph.\n");
    let results = parse_all(&input);
    let commit = results[0].as_ref().unwrap();
    assert_eq!(
        commit.message,
        vec![
            "First paragraph.".to_string(),
            "".to_string(),
            "Second paragraph.".to_string(),
        ]
    );
}

#[test]
fn parses_multiple_commits_separated_by_a_blank_line() {
    let one = basic_commit("", "    First\n");
    let two = basic_commit("", "    Second\n");
    let input = format!("{}\n{}", one, two);
    let results = parse_all(&input);
    assert_eq!(results.len(), 2);
    assert_eq!(results[0].as_ref().unwrap().message, vec!["First".to_string()]);
    assert_eq!(results[1].as_ref().unwrap().message, vec!["Second".to_string()]);
}

#[test]
fn parses_multiple_commits_with_no_separator() {
    let one = basic_commit("", "    First\n");
    let two = basic_commit("", "    Second\n");
    let input = format!("{}{}", one, two);
    let results = parse_all(&input);
    assert_eq!(results.len(), 2);
    assert_eq!(results[0].as_ref().unwrap().message, vec!["First".to_string()]);
    assert_eq!(results[1].as_ref().unwrap().message, vec!["Second".to_string()]);
}

#[test]
fn skips_leading_blank_lines_before_the_first_commit() {
    let input = format!("\n\n{}", basic_commit("", "    Hi\n"));
    let results = parse_all(&input);
    assert_eq!(results.len(), 1);
    assert!(results[0].is_ok());
}

#[test]
fn empty_input_yields_no_commits() {
    assert!(parse_all("").is_empty());
}

#[test]
fn rejects_a_malformed_commit_sha() {
    let e = one_error("commit not-a-sha\n");
    assert!(e.to_string().contains("not a 40-character hex sha"));
    assert_eq!(err_line(&e), 1);
}

#[test]
fn rejects_a_missing_tree_line() {
    let input = format!("commit {}\nauthor x <x@x> 1 +0000\n", SHA1);
    let e = one_error(&input);
    assert!(e.to_string().contains("expected a line starting with \"tree \""));
}

#[test]
fn rejects_a_malformed_parent_sha() {
    let input = format!("commit {}\ntree {}\nparent nope\n", SHA1, TREE1);
    let e = one_error(&input);
    assert!(e.to_string().contains("parent id"));
    assert!(e.to_string().contains("not a 40-character hex sha"));
}

#[test]
fn rejects_an_author_line_missing_open_angle_bracket() {
    let input = basic_commit("", "    x\n")
        .replace("author Jane Doe <jane@example.com>", "author Jane Doe jane@example.com>");
    let e = one_error(&input);
    assert!(e.to_string().contains("author line missing '<'"));
}

#[test]
fn rejects_an_author_line_missing_close_angle_bracket() {
    let input = basic_commit("", "    x\n")
        .replace("author Jane Doe <jane@example.com>", "author Jane Doe <jane@example.com");
    let e = one_error(&input);
    assert!(e.to_string().contains("author line missing '>'"));
}

#[test]
fn rejects_an_author_line_with_brackets_out_of_order() {
    let input = format!(
        "commit {}\ntree {}\nauthor > < 1700000000 -0500\ncommitter x <x@x> 1 +0000\n\n    x\n",
        SHA1, TREE1
    );
    let e = one_error(&input);
    assert!(e.to_string().contains("has '>' before '<'"));
}

#[test]
fn rejects_an_author_line_missing_a_name() {
    let input = format!(
        "commit {}\ntree {}\nauthor <jane@example.com> 1700000000 -0500\ncommitter x <x@x> 1 +0000\n\n    x\n",
        SHA1, TREE1
    );
    let e = one_error(&input);
    assert!(e.to_string().contains("is missing a name"));
}

#[test]
fn rejects_an_author_line_missing_a_timestamp() {
    let input = format!(
        "commit {}\ntree {}\nauthor Jane Doe <jane@example.com>\ncommitter x <x@x> 1 +0000\n\n    x\n",
        SHA1, TREE1
    );
    let e = one_error(&input);
    assert!(e.to_string().contains("is missing a timestamp"));
}

#[test]
fn rejects_an_author_line_missing_a_timezone() {
    let input = format!(
        "commit {}\ntree {}\nauthor Jane Doe <jane@example.com> 1700000000\ncommitter x <x@x> 1 +0000\n\n    x\n",
        SHA1, TREE1
    );
    let e = one_error(&input);
    assert!(e.to_string().contains("is missing a timezone"));
}

#[test]
fn rejects_an_author_line_with_trailing_data() {
    let input = format!(
        "commit {}\ntree {}\nauthor Jane Doe <jane@example.com> 1700000000 -0500 extra\ncommitter x <x@x> 1 +0000\n\n    x\n",
        SHA1, TREE1
    );
    let e = one_error(&input);
    assert!(e.to_string().contains("unexpected trailing data"));
}

#[test]
fn rejects_an_invalid_timestamp() {
    let input = format!(
        "commit {}\ntree {}\nauthor Jane Doe <jane@example.com> not-a-number -0500\ncommitter x <x@x> 1 +0000\n\n    x\n",
        SHA1, TREE1
    );
    let e = one_error(&input);
    assert!(e.to_string().contains("invalid timestamp"));
}

#[test]
fn rejects_an_invalid_timezone() {
    let input = format!(
        "commit {}\ntree {}\nauthor Jane Doe <jane@example.com> 1700000000 nope\ncommitter x <x@x> 1 +0000\n\n    x\n",
        SHA1, TREE1
    );
    let e = one_error(&input);
    assert!(e.to_string().contains("invalid timezone"));
}

#[test]
fn rejects_a_missing_blank_separator_before_the_message() {
    let input = format!(
        "commit {}\ntree {}\nauthor a <a@a> 1 +0000\ncommitter a <a@a> 1 +0000\n    not preceded by a blank line\n",
        SHA1, TREE1
    );
    let e = one_error(&input);
    assert!(e.to_string().contains("expected a blank line before the message"));
}

#[test]
fn rejects_truncated_input() {
    let input = format!("commit {}\n", SHA1);
    let e = one_error(&input);
    assert!(e.to_string().contains("unexpected end of input"));
}

#[test]
fn parse_tz_offset_handles_valid_and_invalid_input() {
    assert_eq!(parse_tz_offset("+0000"), Some(0));
    assert_eq!(parse_tz_offset("-0500"), Some(-300));
    assert_eq!(parse_tz_offset("+0530"), Some(330));
    assert_eq!(parse_tz_offset("+000"), None);
    assert_eq!(parse_tz_offset("+00500"), None);
    assert_eq!(parse_tz_offset("+0060"), None);
    assert_eq!(parse_tz_offset("+00a0"), None);
    assert_eq!(parse_tz_offset("00000"), None);
}

#[test]
fn is_hex_sha_rejects_wrong_length_and_non_hex() {
    assert!(is_hex_sha(SHA1));
    assert!(!is_hex_sha(&SHA1[..39]));
    assert!(!is_hex_sha(&format!("{}g", &SHA1[..39])));
}
