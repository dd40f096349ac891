use recall::tail::{split_lines, TailScan, CHUNK_SIZE};

/// Runs the scan over an in-memory file and returns the start byte.
fn scan(file: &[u8], count: usize) -> (u64, usize) {
    let mut scan = TailScan::new(file.len() as u64, count);
    let mut reads = 0;
    while let Some((start, len)) = scan.next_read() {
        let start = start as usize;
        scan.absorb(&file[start..start + len]);
        reads += 1;
    }
    assert!(scan.is_finished());
    (scan.start_byte(), reads)
}

#[test]
fn tail_of_an_empty_file_is_the_whole_file() {
    let (start, reads) = scan(b"", 5);
    assert_eq!(start, 0);
    assert_eq!(reads, 0);
}

#[test]
fn tail_starts_after_the_newline_that_precedes_the_last_lines() {
    let file = b"a\nb\nc\nd\ne\n";
    // newlines at 1, 3, 5, 7, 9; the scan wants more than count + 1 of them
    let (start, _) = scan(file, 2);
    assert_eq!(start, 6);
    assert_eq!(&file[start as usize..], b"d\ne\n");
}

#[test]
fn an_unterminated_last_line_counts_as_one_of_the_lines() {
    let file = b"a\nb\nc";
    let (start, _) = scan(file, 1);
    assert_eq!(&file[start as usize..], b"c");
    let (start, _) = scan(file, 2);
    assert_eq!(&file[start as usize..], b"b\nc");
    let (start, _) = scan(file, 0);
    assert_eq!(&file[start as usize..], b"");
    let (start, _) = scan(file, 3);
    assert_eq!(start, 0);
    let (start, _) = scan(b"a\nb\nc\n", 1);
    assert_eq!(start, 4);
    let (start, _) = scan(b"a\nb\nc\n", 0);
    assert_eq!(start, 6);
}

#[test]
fn tail_read_gives_at_most_count_entries() {
    let file = "t,L3RtcA==,bHMgLWxh\nt,L3RtcA==,Z2l0IHN0YXR1cw==\nt,L3RtcA==,Y2FyZ28gYnVpbGQ=";
    let (start, _) = scan(file.as_bytes(), 2);
    let lines = split_lines(&file[start as usize..]);
    let entries = recall::history::entries_from_lines(&lines);
    assert_eq!(entries.len(), 2);
    assert_eq!(entries[0].command, "git status");
    assert_eq!(entries[1].command, "cargo build");
    assert!(entries.iter().all(|e| e.tail_index < 2));
}

#[test]
fn tail_of_a_short_file_is_the_whole_file() {
    let (start, _) = scan(b"a\nb\n", 5);
    assert_eq!(start, 0);
}

#[test]
fn scan_reads_backwards_in_chunks() {
    let mut file = Vec::new();
    for i in 0..5000 {
        file.extend_from_slice(format!("line {}\n", i).as_bytes());
    }
    let (start, reads) = scan(&file, 3);
    assert_eq!(reads, 1);
    let text = std::str::from_utf8(&file[start as usize..]).unwrap();
    assert_eq!(text, "line 4997\nline 4998\nline 4999\n");
    let (start, reads) = scan(&file, 2000);
    assert!(reads > 1);
    let text = std::str::from_utf8(&file[start as usize..]).unwrap();
    assert!(text.starts_with("line 3000\n"));
    assert!(CHUNK_SIZE == 8192);
}

#[test]
fn split_lines_drops_blank_lines_and_line_endings() {
    assert_eq!(split_lines("a\r\n\n  \nb"), vec!["a", "b"]);
    assert_eq!(split_lines("x\ny\n"), vec!["x", "y"]);
    assert_eq!(split_lines(""), Vec::<String>::new());
    assert_eq!(split_lines(" keep me \n\t\n"), vec![" keep me "]);
    assert_eq!(split_lines("end\r"), vec!["end\r"]);
    // U+00A0 and U+3000 are whitespace; U+200B is not
    assert_eq!(split_lines("\u{a0}\u{3000}\n\u{200b}\n"), vec!["\u{200b}"]);
}
