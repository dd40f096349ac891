use recall::history::{
    decode_base64, decoded_text, dedup, entries_from_lines, filter, is_in_tree, log_line,
    parse_entry, split_fields, starts_with, HistoryEntry, Pattern,
};

fn entry(timestamp: &str, directory: &str, command: &str, tail_index: usize) -> HistoryEntry {
    HistoryEntry {
        timestamp: timestamp.to_string(),
        directory: directory.to_string(),
        command: command.to_string(),
        tail_index,
    }
}

fn commands(entries: &[HistoryEntry]) -> Vec<String> {
    entries.iter().map(|e| e.command.clone()).collect()
}

#[test]
fn parse_entry_reads_the_three_fields() {
    let e = parse_entry("2024-01-02 13:45:10,L2hvbWUvdXNlcg==,bHMgLWxh", 7).unwrap();
    assert_eq!(e.timestamp, "2024-01-02 13:45:10");
    assert_eq!(e.directory, "/home/user");
    assert_eq!(e.command, "ls -la");
    assert_eq!(e.tail_index, 7);
}

#[test]
fn parse_entry_ignores_whitespace_around_encoded_fields() {
    let e = parse_entry("t, L3RtcA== , ZWNobyBhLGI= \r", 0).unwrap();
    assert_eq!(e.directory, "/tmp");
    assert_eq!(e.command, "echo a,b");
}

#[test]
fn parse_entry_refuses_a_line_with_too_few_fields() {
    assert!(parse_entry("2024-01-02,L3RtcA==", 0).is_none());
    assert!(parse_entry("", 0).is_none());
}

#[test]
fn parse_entry_refuses_bad_base64() {
    assert!(parse_entry("t,L3RtcA==,not base64!", 0).is_none());
    assert!(parse_entry("t,###,bHMgLWxh", 0).is_none());
}

#[test]
fn parse_entry_refuses_text_that_is_not_utf8() {
    assert!(parse_entry("t,L3RtcA==,//4=", 0).is_none());
}

#[test]
fn split_fields_keeps_later_commas_in_the_third_field() {
    let (a, b, c) = split_fields("x,y,z,w").unwrap();
    assert_eq!((a.as_str(), b.as_str(), c.as_str()), ("x", "y", "z,w"));
    let (a, b, c) = split_fields(",,").unwrap();
    assert_eq!((a.as_str(), b.as_str(), c.as_str()), ("", "", ""));
    assert!(split_fields("no commas").is_none());
    assert!(split_fields("one,comma").is_none());
}

#[test]
fn decode_base64_decodes_and_trims() {
    assert_eq!(decode_base64("  Z2l0IHN0YXR1cw==\n").unwrap(), "git status");
    assert_eq!(decode_base64("").unwrap(), "");
    assert!(decode_base64("Z2l0").is_some());
    assert!(decode_base64("Z2l0IH").is_none());
}

#[test]
fn decoded_text_reads_utf8() {
    assert_eq!(decoded_text(Some(vec![104, 105])).unwrap(), "hi");
    assert!(decoded_text(Some(vec![0xff, 0xfe])).is_none());
    assert!(decoded_text(None).is_none());
}

#[test]
fn entries_from_lines_numbers_entries_by_line() {
    let lines = vec![
        "t1,L3RtcA==,bHMgLWxh".to_string(),
        "garbage".to_string(),
        "t3,L2hvbWUvdXNlcg==,Z2l0IHN0YXR1cw==".to_string(),
    ];
    let entries = entries_from_lines(&lines);
    assert_eq!(entries.len(), 2);
    assert_eq!(entries[0].tail_index, 0);
    assert_eq!(entries[0].command, "ls -la");
    assert_eq!(entries[1].tail_index, 2);
    assert_eq!(entries[1].command, "git status");
    assert_eq!(entries[1].directory, "/home/user");
}

#[test]
fn dedup_keeps_the_last_occurrence_in_order() {
    let entries = vec![
        entry("1", "/a", "ls", 0),
        entry("2", "/a", "git status", 1),
        entry("3", "/b", "ls", 2),
        entry("4", "/a", "make", 3),
        entry("5", "/c", "git status", 4),
    ];
    let out = dedup(&entries);
    assert_eq!(commands(&out), vec!["ls", "make", "git status"]);
    let indices: Vec<usize> = out.iter().map(|e| e.tail_index).collect();
    assert_eq!(indices, vec![2, 3, 4]);
    assert_eq!(out[0].directory, "/b");
}

#[test]
fn dedup_twice_is_dedup_once() {
    let entries = vec![
        entry("1", "/a", "x", 0),
        entry("2", "/a", "y", 1),
        entry("3", "/a", "x", 2),
        entry("4", "/a", "x", 3),
    ];
    let once = dedup(&entries);
    let twice = dedup(&once);
    assert_eq!(commands(&once), commands(&twice));
    assert_eq!(commands(&once), vec!["y", "x"]);
    assert!(dedup(&[]).is_empty());
}

#[test]
fn pattern_compiles_only_valid_regexes() {
    let p = Pattern::new("gi+t").unwrap();
    assert_eq!(p.source(), "gi+t");
    assert!(p.is_match("git push"));
    assert!(!p.is_match("gt push"));
    assert!(Pattern::new("(unclosed").is_none());
}

#[test]
fn filter_applies_each_given_test() {
    let entries = vec![
        entry("1", "/home/u/proj", "git status", 0),
        entry("2", "/home/u/proj/sub", "cargo build", 1),
        entry("3", "/tmp", "git log", 2),
        entry("4", "/home/u/other", "git diff", 3),
    ];
    let none = filter(entries.clone(), &None, &None, &None);
    assert_eq!(commands(&none), commands(&entries));

    let git = Some(Pattern::new("^git").unwrap());
    let by_command = filter(entries.clone(), &git, &None, &None);
    assert_eq!(commands(&by_command), vec!["git status", "git log", "git diff"]);

    let proj = Some(Pattern::new("proj").unwrap());
    let by_directory = filter(entries.clone(), &None, &proj, &None);
    assert_eq!(commands(&by_directory), vec!["git status", "cargo build"]);

    let here = Some("/home/u".to_string());
    let under = filter(entries.clone(), &git, &None, &here);
    assert_eq!(commands(&under), vec!["git status", "git diff"]);

    let again = filter(under.clone(), &git, &None, &here);
    assert_eq!(commands(&again), commands(&under));
}

#[test]
fn starts_with_compares_characters() {
    assert!(starts_with("/home/u/proj", "/home/u"));
    assert!(starts_with("abc", ""));
    assert!(!starts_with("/home", "/home/u"));
    assert!(!starts_with("/tmp/x", "/home"));
}

#[test]
fn filter_by_directory_tree_respects_path_boundaries() {
    let entries = vec![
        entry("1", "/home/u/proj", "a", 0),
        entry("2", "/home/u/proj/src", "b", 1),
        entry("3", "/home/u/project2", "c", 2),
        entry("4", "/tmp", "d", 3),
    ];
    let here = Some("/home/u/proj".to_string());
    let kept = filter(entries.clone(), &None, &None, &here);
    let directories: Vec<String> = kept.iter().map(|e| e.directory.clone()).collect();
    assert_eq!(directories, vec!["/home/u/proj", "/home/u/proj/src"]);
    let root = Some("/".to_string());
    assert_eq!(filter(entries, &None, &None, &root).len(), 4);
}

#[test]
fn is_in_tree_needs_a_separator() {
    assert!(is_in_tree("/home/u", "/home/u"));
    assert!(is_in_tree("/home/u/x", "/home/u"));
    assert!(is_in_tree("/home/u/x", "/home/u/"));
    assert!(!is_in_tree("/home/ux", "/home/u"));
    assert!(!is_in_tree("/home", "/home/u"));
}

#[test]
fn log_line_reads_back() {
    let line = log_line("2024-01-02 13:45:10", "/home/u/проект", "echo a,b && ls");
    let e = parse_entry(&line, 3).unwrap();
    assert_eq!(e.timestamp, "2024-01-02 13:45:10");
    assert_eq!(e.directory, "/home/u/проект");
    assert_eq!(e.command, "echo a,b && ls");
    assert_eq!(e.tail_index, 3);
    assert_eq!(log_line("t", "/tmp", "ls -la"), "t,L3RtcA==,bHMgLWxh");
}

#[test]
fn decode_base64_trims_unicode_whitespace() {
    assert_eq!(decode_base64("\u{3000}bHMgLWxh\u{a0}").unwrap(), "ls -la");
    assert!(decode_base64("\u{200b}bHMgLWxh").is_none());
}
