use recall::context::{abbreviate_directory, show_lines};
use recall::display::{abbreviate_home, display_items, shorten_timestamp};
use recall::history::HistoryEntry;

fn entry(timestamp: &str, directory: &str, command: &str, tail_index: usize) -> HistoryEntry {
    HistoryEntry {
        timestamp: timestamp.to_string(),
        directory: directory.to_string(),
        command: command.to_string(),
        tail_index,
    }
}

#[test]
fn abbreviate_home_writes_tilde() {
    let home = Some("/home/u".to_string());
    assert_eq!(abbreviate_home("/home/u/proj", &home), "~/proj");
    assert_eq!(abbreviate_home("/home/u", &home), "~");
    assert_eq!(abbreviate_home("/tmp", &home), "/tmp");
    assert_eq!(abbreviate_home("/home/u/proj", &None), "/home/u/proj");
    assert_eq!(abbreviate_directory("/home/u/x", &home), "~/x");
}

#[test]
fn shorten_timestamp_keeps_the_time_of_day() {
    assert_eq!(shorten_timestamp("2024-01-02 13:45:10"), "13:45");
    assert_eq!(shorten_timestamp("2024-01-02"), "2024-01-02");
    assert_eq!(shorten_timestamp("2024-01-02 1:2"), "2024-01-02 1:2");
    assert_eq!(shorten_timestamp("d 12:34"), "12:34");
    // the fifth byte falls inside `é`
    assert_eq!(shorten_timestamp("d 1234é6"), "d 1234é6");
}

#[test]
fn display_items_keeps_the_most_recent() {
    let entries = vec![
        entry("2024-01-01 10:00:00", "/home/u", "one", 0),
        entry("2024-01-01 11:00:00", "/home/u/a", "two", 1),
        entry("2024-01-01 12:00:00", "/tmp", "three", 2),
    ];
    let home = Some("/home/u".to_string());
    let items = display_items(&entries, 2, &home);
    assert_eq!(items.len(), 2);
    assert_eq!(items[0].command, "two");
    assert_eq!(items[0].directory_display, "~/a");
    assert_eq!(items[0].timestamp_display, "11:00");
    assert_eq!(items[0].tail_index, 1);
    assert_eq!(items[1].command, "three");
    assert_eq!(display_items(&entries, 10, &home).len(), 3);
    assert!(display_items(&entries, 0, &home).is_empty());
}

#[test]
fn show_lines_marks_the_chosen_entry() {
    let entries = vec![
        entry("t0", "/home/u", "a", 0),
        entry("t1", "/home/u/proj", "b", 1),
        entry("t2", "/x", "c", 2),
        entry("t3", "/y", "d", 3),
    ];
    let home = Some("/home/u".to_string());
    let lines = show_lines(&entries, 1, 1, &home).unwrap();
    assert_eq!(
        lines,
        vec![
            "".to_string(),
            "    t0  ~       a".to_string(),
            "  ▸ t1  ~/proj  b".to_string(),
            "    t2  /x      c".to_string(),
            "".to_string(),
        ]
    );
    assert!(show_lines(&entries, 9, 1, &home).unwrap().is_empty());
    assert!(show_lines(&entries, 1, usize::MAX - 1, &home).is_none());
    assert!(show_lines(&entries, 9, usize::MAX, &home).unwrap().is_empty());
    let all = show_lines(&entries, 3, 10, &None).unwrap();
    assert_eq!(all.len(), 6);
    assert_eq!(all[4], "  ▸ t3  /y            d");
}
