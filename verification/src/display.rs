//! How the chosen entries are shown on the menu: home directories
//! abbreviated, timestamps shortened to the time of day, only the most
//! recent entries kept.
use vstd::prelude::*;
use vstd::utf8::{encode_utf8, is_char_boundary};

use crate::history::{option_view, views, HistoryEntry, HistoryEntryView};
use crate::picker::DisplayEntry;
use crate::text::{byte_prefix, byte_prefix_spec, chars_of, find, find_from, is_boundary, push_str, string_of_range};

verus! {

/// `path` with the home directory written `~`, when it starts with it.
pub open spec fn abbreviated(path: Seq<char>, home_dir: Option<Seq<char>>) -> Seq<char> {
    match home_dir {
        Some(home) => if home.is_prefix_of(path) {
            seq!['~'] + path.skip(home.len() as int)
        } else {
            path
        },
        None => path,
    }
}

/// Writes the home directory at the start of `path` as `~`.
pub fn abbreviate_home(path: &str, home_dir: &Option<String>) -> (out: String)
    ensures
        out@ == abbreviated(path@, option_view(*home_dir)),
{
    if let Some(home) = home_dir {
        if crate::history::starts_with(path, home.as_str()) {
            let chars = chars_of(path);
            let home_len = home.as_str().unicode_len();
            let rest = string_of_range(&chars, home_len, chars.len());
            let mut out = String::new();
            out.push('~');
            push_str(&mut out, rest.as_str());
            return out;
        }
    }
    let mut out = String::new();
    push_str(&mut out, path);
    out
}

/// The time of day of a timestamp `date time`: the first five bytes after
/// the first space, when they end on a character boundary; otherwise the
/// timestamp as it is.
pub open spec fn shortened(timestamp: Seq<char>) -> Seq<char> {
    let i = find(timestamp, ' ');
    if i < timestamp.len() {
        let time = timestamp.skip(i as int + 1);
        if is_char_boundary(encode_utf8(time), 5) {
            byte_prefix_spec(time, 5)
        } else {
            timestamp
        }
    } else {
        timestamp
    }
}

/// Shortens `2024-01-02 13:45:10` to `13:45`.
pub fn shorten_timestamp(timestamp: &str) -> (out: String)
    ensures
        out@ == shortened(timestamp@),
{
    let chars = chars_of(timestamp);
    let i = find_from(&chars, 0, ' ');
    assert(chars@.skip(0) == chars@);
    if i < chars.len() {
        let time = string_of_range(&chars, i + 1, chars.len());
        if is_boundary(time.as_str(), 5) {
            return byte_prefix(time.as_str(), 5);
        }
    }
    let mut out = String::new();
    push_str(&mut out, timestamp);
    out
}

/// The fields of a menu line as character sequences.
pub struct DisplayEntryView {
    pub command: Seq<char>,
    pub directory_display: Seq<char>,
    pub timestamp_display: Seq<char>,
    pub tail_index: usize,
}

impl View for DisplayEntry {
    type V = DisplayEntryView;

    open spec fn view(&self) -> DisplayEntryView {
        DisplayEntryView {
            command: self.command@,
            directory_display: self.directory_display@,
            timestamp_display: self.timestamp_display@,
            tail_index: self.tail_index,
        }
    }
}

/// The menu line of an entry.
pub open spec fn display_of(e: HistoryEntryView, home_dir: Option<Seq<char>>) -> DisplayEntryView {
    DisplayEntryView {
        command: e.command,
        directory_display: abbreviated(e.directory, home_dir),
        timestamp_display: shortened(e.timestamp),
        tail_index: e.tail_index,
    }
}

/// The last `number` entries (all of them when there are fewer), in order.
pub open spec fn last_entries(s: Seq<HistoryEntryView>, number: nat) -> Seq<HistoryEntryView> {
    if s.len() > number {
        s.skip(s.len() - number)
    } else {
        s
    }
}

/// The menu: the most recent `number` entries, oldest first, each with its
/// home directory abbreviated and its timestamp shortened.
pub fn display_items(entries: &[HistoryEntry], number: usize, home_dir: &Option<String>) -> (items: Vec<DisplayEntry>)
    ensures
        items@.len() == last_entries(views(entries@), number as nat).len(),
        items@.len() == if entries@.len() > number {
            number as int
        } else {
            entries@.len() as int
        },
        forall|k: int|
            0 <= k < items@.len() ==> #[trigger] items@[k]@ == display_of(
                last_entries(views(entries@), number as nat)[k],
                option_view(*home_dir),
            ),
{
    let ghost chosen = last_entries(views(entries@), number as nat);
    let start = if entries.len() > number {
        entries.len() - number
    } else {
        0
    };
    let mut items: Vec<DisplayEntry> = Vec::new();
    let mut i = start;
    while i < entries.len()
        invariant
            start <= i <= entries@.len(),
            chosen == last_entries(views(entries@), number as nat),
            chosen.len() == entries@.len() - start,
            forall|k: int| 0 <= k < chosen.len() ==> #[trigger] chosen[k] == entries@[start + k]@,
            items@.len() == i - start,
            forall|k: int|
                0 <= k < items@.len() ==> #[trigger] items@[k]@ == display_of(
                    chosen[k],
                    option_view(*home_dir),
                ),
        decreases entries@.len() - i,
    {
        let e = &entries[i];
        let item = DisplayEntry {
            command: e.command.clone(),
            directory_display: abbreviate_home(e.directory.as_str(), home_dir),
            timestamp_display: shorten_timestamp(e.timestamp.as_str()),
            tail_index: e.tail_index,
        };
        assert(chosen[i - start] == entries@[i as int]@);
        items.push(item);
        i += 1;
    }
    items
}

} // verus!
