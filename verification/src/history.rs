//! History entries: how a line of the extended history log is read, and how
//! the entries are deduplicated and filtered.
use vstd::prelude::*;
use vstd::utf8::{
    decode_utf8, encode_utf8, encode_utf8_decode_utf8, encode_utf8_valid_utf8, valid_utf8,
};

use crate::encoding::{
    base64_decode, base64_encode, base64_standard_decode, base64_standard_encode, base64_symbol,
    encodable_len,
};
use crate::text::{
    chars_of, find, find_from, lemma_find, push_str, string_of, string_of_range, trim_chars,
    trim_end, trim_start, trimmed, white_space,
};

verus! {

/// One logged command: when it ran, where, and its place in the tail that was read.
#[derive(Debug, Clone)]
pub struct HistoryEntry {
    pub timestamp: String,
    pub directory: String,
    pub command: String,
    pub tail_index: usize,
}

/// The fields of a history entry as character sequences.
pub struct HistoryEntryView {
    pub timestamp: Seq<char>,
    pub directory: Seq<char>,
    pub command: Seq<char>,
    pub tail_index: usize,
}

impl View for HistoryEntry {
    type V = HistoryEntryView;

    open spec fn view(&self) -> HistoryEntryView {
        HistoryEntryView {
            timestamp: self.timestamp@,
            directory: self.directory@,
            command: self.command@,
            tail_index: self.tail_index,
        }
    }
}

/// The views of a sequence of entries.
pub open spec fn views(s: Seq<HistoryEntry>) -> Seq<HistoryEntryView> {
    s.map_values(|e: HistoryEntry| e@)
}

/// The views of a sequence of strings.
pub open spec fn string_views(s: Seq<String>) -> Seq<Seq<char>> {
    s.map_values(|l: String| l@)
}

/// The view of an optional string.
pub open spec fn option_view(o: Option<String>) -> Option<Seq<char>> {
    match o {
        Some(s) => Some(s@),
        None => None,
    }
}

pub(crate) fn clone_entry(e: &HistoryEntry) -> (out: HistoryEntry)
    ensures
        out@ == e@,
{
    HistoryEntry {
        timestamp: e.timestamp.clone(),
        directory: e.directory.clone(),
        command: e.command.clone(),
        tail_index: e.tail_index,
    }
}

/// The three fields of a log line, split at its first two commas (as
/// `splitn(3, ',')`): the third field keeps any further commas. `None` when
/// the line has fewer than two commas.
pub open spec fn split_fields_spec(s: Seq<char>) -> Option<(Seq<char>, Seq<char>, Seq<char>)> {
    let i = find(s, ',');
    if i >= s.len() {
        None
    } else {
        let rest = s.skip(i as int + 1);
        let j = find(rest, ',');
        if j >= rest.len() {
            None
        } else {
            Some((s.take(i as int), rest.take(j as int), rest.skip(j as int + 1)))
        }
    }
}

/// Splits a log line into timestamp, encoded directory and encoded command.
pub fn split_fields(line: &str) -> (res: Option<(String, String, String)>)
    ensures
        match res {
            Some((a, b, c)) => split_fields_spec(line@) == Some((a@, b@, c@)),
            None => split_fields_spec(line@) is None,
        },
{
    let chars = chars_of(line);
    let i = find_from(&chars, 0, ',');
    assert(chars@.skip(0) == chars@);
    if i >= chars.len() {
        return None;
    }
    let j = find_from(&chars, i + 1, ',');
    if j >= chars.len() {
        return None;
    }
    let a = string_of_range(&chars, 0, i);
    let b = string_of_range(&chars, i + 1, j);
    let c = string_of_range(&chars, j + 1, chars.len());
    proof {
        let rest = chars@.skip(i + 1);
        assert(a@ == chars@.take(i as int));
        assert(b@ == rest.take(j - i - 1));
        assert(c@ == rest.skip(j - i));
    }
    Some((a, b, c))
}

/// Calls `String::from_utf8`: the bytes are accepted exactly when they are
/// valid UTF-8, and the string holds the characters they encode.
#[verifier::external_body]
fn utf8_string(bytes: Vec<u8>) -> (res: Option<String>)
    ensures
        res is Some <==> valid_utf8(bytes@),
        res matches Some(s) ==> s@ == decode_utf8(bytes@),
{
    String::from_utf8(bytes).ok()
}

/// The text held by decoded bytes: their UTF-8 decoding, if they are valid UTF-8.
pub open spec fn text_of(decoded: Option<Seq<u8>>) -> Option<Seq<char>> {
    match decoded {
        Some(bytes) => if valid_utf8(bytes) {
            Some(decode_utf8(bytes))
        } else {
            None
        },
        None => None,
    }
}

/// The text of a base64 field of the log: the field is trimmed, decoded,
/// and read as UTF-8.
pub open spec fn decoded_field(field: Seq<char>) -> Option<Seq<char>> {
    text_of(base64_standard_decode(trimmed(field)))
}

/// The text held by decoded bytes, if there are any and they are valid UTF-8.
pub fn decoded_text(decoded: Option<Vec<u8>>) -> (res: Option<String>)
    ensures
        option_view(res) == text_of(
            match decoded {
                Some(b) => Some(b@),
                None => None,
            },
        ),
{
    match decoded {
        Some(bytes) => utf8_string(bytes),
        None => None,
    }
}

/// Decodes one base64 field of the log (surrounding whitespace ignored).
pub fn decode_base64(encoded: &str) -> (res: Option<String>)
    ensures
        option_view(res) == decoded_field(encoded@),
{
    let chars = chars_of(encoded);
    let trimmed_chars = trim_chars(&chars);
    let field = string_of(&trimmed_chars);
    decoded_text(base64_decode(field.as_str()))
}

/// The entry that a log line holds, if its fields split and decode.
pub open spec fn parse_entry_spec(line: Seq<char>, tail_index: usize) -> Option<HistoryEntryView> {
    match split_fields_spec(line) {
        None => None,
        Some((timestamp, directory, command)) => match (
            decoded_field(directory),
            decoded_field(command),
        ) {
            (Some(directory), Some(command)) => Some(
                HistoryEntryView { timestamp, directory, command, tail_index },
            ),
            _ => None,
        },
    }
}

/// Reads one line of the log, `timestamp,base64(directory),base64(command)`.
pub fn parse_entry(line: &str, tail_index: usize) -> (res: Option<HistoryEntry>)
    ensures
        match res {
            Some(e) => parse_entry_spec(line@, tail_index) == Some(e@),
            None => parse_entry_spec(line@, tail_index) is None,
        },
{
    let (timestamp, directory, command) = match split_fields(line) {
        Some(fields) => fields,
        None => return None,
    };
    let directory = match decode_base64(directory.as_str()) {
        Some(d) => d,
        None => return None,
    };
    let command = match decode_base64(command.as_str()) {
        Some(c) => c,
        None => return None,
    };
    Some(HistoryEntry { timestamp, directory, command, tail_index })
}

/// The log line of a command, as the shell hook writes it:
/// `timestamp,base64(directory),base64(command)`, each field's UTF-8 bytes encoded.
pub open spec fn log_line_spec(timestamp: Seq<char>, directory: Seq<char>, command: Seq<char>) -> Seq<
    char,
> {
    timestamp + seq![','] + base64_standard_encode(encode_utf8(directory)) + seq![','] + base64_standard_encode(
        encode_utf8(command),
    )
}

proof fn lemma_trimmed_without_whitespace(s: Seq<char>)
    requires
        forall|i: int| 0 <= i < s.len() ==> !white_space(#[trigger] s[i]),
    ensures
        trimmed(s) == s,
{
    assert(trim_start(s) == s);
    if s.len() > 0 {
        assert(!white_space(s[s.len() - 1]));
    }
    assert(trim_end(s) == s);
}

proof fn lemma_encoded_field(field: Seq<char>, text: Seq<char>)
    requires
        forall|i: int| 0 <= i < field.len() ==> base64_symbol(#[trigger] field[i]),
        base64_standard_decode(field) == Some(encode_utf8(text)),
    ensures
        decoded_field(field) == Some(text),
        !field.contains(','),
{
    assert forall|i: int| 0 <= i < field.len() implies !white_space(#[trigger] field[i]) by {
        assert(base64_symbol(field[i]));
    }
    lemma_trimmed_without_whitespace(field);
    encode_utf8_valid_utf8(text);
    encode_utf8_decode_utf8(text);
    if field.contains(',') {
        let k = choose|k: int| 0 <= k < field.len() && field[k] == ',';
        assert(base64_symbol(field[k]));
    }
}

/// A log line reads back as the entry it was written for: the timestamp
/// (when it holds no comma), and the directory and command decoded from
/// their base64 fields.
pub proof fn lemma_log_line_reads_back(
    timestamp: Seq<char>,
    directory_field: Seq<char>,
    command_field: Seq<char>,
    directory: Seq<char>,
    command: Seq<char>,
    tail_index: usize,
)
    requires
        !timestamp.contains(','),
        forall|i: int|
            0 <= i < directory_field.len() ==> base64_symbol(#[trigger] directory_field[i]),
        forall|i: int| 0 <= i < command_field.len() ==> base64_symbol(#[trigger] command_field[i]),
        base64_standard_decode(directory_field) == Some(encode_utf8(directory)),
        base64_standard_decode(command_field) == Some(encode_utf8(command)),
    ensures
        parse_entry_spec(
            timestamp + seq![','] + directory_field + seq![','] + command_field,
            tail_index,
        ) == Some(HistoryEntryView { timestamp, directory, command, tail_index }),
{
    let line = timestamp + seq![','] + directory_field + seq![','] + command_field;
    lemma_encoded_field(directory_field, directory);
    lemma_encoded_field(command_field, command);
    let k = timestamp.len() as int;
    assert forall|i: int| 0 <= i < k implies line[i] != ',' by {
        assert(line[i] == timestamp[i]);
        if timestamp[i] == ',' {
            assert(timestamp.contains(','));
        }
    }
    assert(line[k] == ',');
    lemma_find(line, ',', k);
    let rest = line.skip(k + 1);
    assert(rest == directory_field + seq![','] + command_field);
    let j = directory_field.len() as int;
    assert forall|i: int| 0 <= i < j implies rest[i] != ',' by {
        assert(rest[i] == directory_field[i]);
        if directory_field[i] == ',' {
            assert(directory_field.contains(','));
        }
    }
    assert(rest[j] == ',');
    lemma_find(rest, ',', j);
    assert(line.take(k) == timestamp);
    assert(rest.take(j) == directory_field);
    assert(rest.skip(j + 1) == command_field);
}

/// Writes the log line of a command (see `log_line_spec`); it reads back as
/// the same entry whenever the timestamp holds no comma.
pub fn log_line(timestamp: &str, directory: &str, command: &str) -> (line: String)
    requires
        encodable_len(encode_utf8(directory@).len()),
        encodable_len(encode_utf8(command@).len()),
    ensures
        line@ == log_line_spec(timestamp@, directory@, command@),
        !timestamp@.contains(',') ==> forall|tail_index: usize|
            #[trigger] parse_entry_spec(line@, tail_index) == Some(
                HistoryEntryView {
                    timestamp: timestamp@,
                    directory: directory@,
                    command: command@,
                    tail_index,
                },
            ),
{
    let directory_field = base64_encode(directory.as_bytes());
    let command_field = base64_encode(command.as_bytes());
    let mut line = String::new();
    push_str(&mut line, timestamp);
    line.push(',');
    push_str(&mut line, directory_field.as_str());
    line.push(',');
    push_str(&mut line, command_field.as_str());
    assert(line@ =~= timestamp@ + seq![','] + directory_field@ + seq![','] + command_field@);
    proof {
        if !timestamp@.contains(',') {
            assert forall|tail_index: usize| #[trigger] parse_entry_spec(line@, tail_index) == Some(
                HistoryEntryView {
                    timestamp: timestamp@,
                    directory: directory@,
                    command: command@,
                    tail_index,
                },
            ) by {
                lemma_log_line_reads_back(
                    timestamp@,
                    directory_field@,
                    command_field@,
                    directory@,
                    command@,
                    tail_index,
                );
            }
        }
    }
    line
}

/// The entries held by the lines of the tail, in order; each entry's
/// `tail_index` is the index of its line.
pub open spec fn parsed_entries(lines: Seq<Seq<char>>) -> Seq<HistoryEntryView>
    decreases lines.len(),
{
    if lines.len() == 0 {
        Seq::empty()
    } else {
        let before = parsed_entries(lines.drop_last());
        match parse_entry_spec(lines.last(), (lines.len() - 1) as usize) {
            Some(e) => before.push(e),
            None => before,
        }
    }
}

/// There are no more entries than lines, and each entry's tail index is the
/// index of a line.
pub proof fn lemma_parsed_entries_within_lines(lines: Seq<Seq<char>>)
    ensures
        parsed_entries(lines).len() <= lines.len(),
        forall|k: int|
            #![trigger parsed_entries(lines)[k]]
            0 <= k < parsed_entries(lines).len() ==> parsed_entries(lines)[k].tail_index
                < lines.len(),
    decreases lines.len(),
{
    if lines.len() > 0 {
        lemma_parsed_entries_within_lines(lines.drop_last());
    }
}

/// The entries come from the lines in order, one per parsing line: entry `k`
/// is what line `idx[k]` parses to (so its tail index is `idx[k]`), and the
/// lines that entries come from are strictly increasing.
pub proof fn lemma_parsed_entries_come_from_lines(lines: Seq<Seq<char>>) -> (idx: Seq<int>)
    ensures
        idx.len() == parsed_entries(lines).len(),
        forall|k: int| 0 <= k < idx.len() ==> 0 <= #[trigger] idx[k] < lines.len(),
        forall|k1: int, k2: int| 0 <= k1 < k2 < idx.len() ==> idx[k1] < idx[k2],
        forall|k: int|
            #![trigger idx[k]]
            0 <= k < idx.len() ==> parse_entry_spec(lines[idx[k]], idx[k] as usize) == Some(
                parsed_entries(lines)[k],
            ),
    decreases lines.len(),
{
    if lines.len() == 0 {
        Seq::empty()
    } else {
        let d = lines.drop_last();
        let before = lemma_parsed_entries_come_from_lines(d);
        let last = lines.len() - 1;
        assert forall|k: int| 0 <= k < before.len() implies lines[#[trigger] before[k]] == d[before[k]] by {}
        match parse_entry_spec(lines.last(), (lines.len() - 1) as usize) {
            Some(e) => before.push(last),
            None => before,
        }
    }
}

/// Every line that parses yields its own entry: the entries hold what line
/// `j` parses to, numbered `j`.
pub proof fn lemma_parsed_entries_keep_every_parsing_line(lines: Seq<Seq<char>>, j: int) -> (k: int)
    requires
        0 <= j < lines.len(),
        parse_entry_spec(lines[j], j as usize) is Some,
    ensures
        0 <= k < parsed_entries(lines).len(),
        Some(parsed_entries(lines)[k]) == parse_entry_spec(lines[j], j as usize),
    decreases lines.len(),
{
    let d = lines.drop_last();
    if j == lines.len() - 1 {
        parsed_entries(d).len() as int
    } else {
        assert(d[j] == lines[j]);
        let k = lemma_parsed_entries_keep_every_parsing_line(d, j);
        assert(parsed_entries(lines)[k] == parsed_entries(d)[k]);
        k
    }
}

/// When every line parses, there is one entry per line, in the order of the
/// lines: entry `i` is what line `i` parses to, and its tail index is `i`.
pub proof fn lemma_parsed_entries_of_parsing_lines(lines: Seq<Seq<char>>)
    requires
        forall|i: int| 0 <= i < lines.len() ==> #[trigger] parse_entry_spec(lines[i], i as usize) is Some,
    ensures
        parsed_entries(lines).len() == lines.len(),
        forall|i: int|
            #![trigger parsed_entries(lines)[i]]
            0 <= i < lines.len() ==> Some(parsed_entries(lines)[i]) == parse_entry_spec(lines[i], i as usize)
                && parsed_entries(lines)[i].tail_index == i as usize,
    decreases lines.len(),
{
    if lines.len() > 0 {
        let d = lines.drop_last();
        assert forall|i: int| 0 <= i < d.len() implies #[trigger] parse_entry_spec(d[i], i as usize) is Some by {
            assert(d[i] == lines[i]);
        }
        lemma_parsed_entries_of_parsing_lines(d);
        assert forall|i: int|
            #![trigger parsed_entries(lines)[i]]
            0 <= i < lines.len() implies Some(parsed_entries(lines)[i]) == parse_entry_spec(lines[i], i as usize)
                && parsed_entries(lines)[i].tail_index == i as usize by {
            if i < d.len() {
                assert(d[i] == lines[i]);
                assert(parsed_entries(lines)[i] == parsed_entries(d)[i]);
            }
        }
    }
}

/// The entries held by the lines read from the tail of the log; lines that
/// do not parse are left out.
pub fn entries_from_lines(lines: &Vec<String>) -> (entries: Vec<HistoryEntry>)
    ensures
        views(entries@) == parsed_entries(string_views(lines@)),
        entries@.len() <= lines@.len(),
        forall|k: int| #![trigger entries@[k]] 0 <= k < entries@.len() ==> entries@[k].tail_index < lines@.len(),
        forall|k: int|
            #![trigger entries@[k]]
            0 <= k < entries@.len() ==> parse_entry_spec(
                lines@[entries@[k].tail_index as int]@,
                entries@[k].tail_index,
            ) == Some(entries@[k]@),
        forall|k1: int, k2: int|
            #![trigger entries@[k1], entries@[k2]]
            0 <= k1 < k2 < entries@.len() ==> entries@[k1].tail_index < entries@[k2].tail_index,
        forall|j: int|
            #![trigger lines@[j]]
            0 <= j < lines@.len() && parse_entry_spec(lines@[j]@, j as usize) is Some ==> exists|k: int|
                0 <= k < entries@.len() && Some(#[trigger] entries@[k]@) == parse_entry_spec(
                    lines@[j]@,
                    j as usize,
                ),
        (forall|i: int| 0 <= i < lines@.len() ==> #[trigger] parse_entry_spec(lines@[i]@, i as usize) is Some)
            ==> entries@.len() == lines@.len() && forall|i: int|
            #![trigger entries@[i]]
            0 <= i < lines@.len() ==> Some(entries@[i]@) == parse_entry_spec(lines@[i]@, i as usize)
                && entries@[i].tail_index == i,
{
    let mut entries: Vec<HistoryEntry> = Vec::new();
    let mut i: usize = 0;
    while i < lines.len()
        invariant
            i <= lines@.len(),
            views(entries@) == parsed_entries(string_views(lines@).take(i as int)),
        decreases lines@.len() - i,
    {
        let parsed = parse_entry(lines[i].as_str(), i);
        proof {
            let prefix = string_views(lines@).take(i + 1);
            assert(prefix.drop_last() == string_views(lines@).take(i as int));
            assert(prefix.last() == lines@[i as int]@);
        }
        let ghost before = entries@;
        match parsed {
            Some(e) => {
                entries.push(e);
                assert(views(entries@) == views(before).push(e@));
            },
            None => {},
        }
        i += 1;
    }
    assert(string_views(lines@).take(lines@.len() as int) == string_views(lines@));
    proof {
        lemma_parsed_entries_within_lines(string_views(lines@));
        assert(views(entries@).len() == entries@.len());
        assert forall|k: int| #![trigger entries@[k]] 0 <= k < entries@.len() implies entries@[k].tail_index
            < lines@.len() by {
            assert(views(entries@)[k] == entries@[k]@);
            assert(string_views(lines@).len() == lines@.len());
            assert(parsed_entries(string_views(lines@))[k] == entries@[k]@);
        }
        let sv = string_views(lines@);
        assert(sv.len() == lines@.len());
        assert forall|j: int| 0 <= j < sv.len() implies #[trigger] sv[j] == lines@[j]@ by {}
        let idx = lemma_parsed_entries_come_from_lines(sv);
        assert forall|k: int| 0 <= k < entries@.len() implies idx[k] == entries@[k].tail_index as int by {
            assert(views(entries@)[k] == entries@[k]@);
            assert(parse_entry_spec(sv[idx[k]], idx[k] as usize) == Some(entries@[k]@));
        }
        assert forall|k: int|
            #![trigger entries@[k]]
            0 <= k < entries@.len() implies parse_entry_spec(
                lines@[entries@[k].tail_index as int]@,
                entries@[k].tail_index,
            ) == Some(entries@[k]@) by {
            assert(idx[k] == entries@[k].tail_index as int);
        }
        assert forall|k1: int, k2: int|
            #![trigger entries@[k1], entries@[k2]]
            0 <= k1 < k2 < entries@.len() implies entries@[k1].tail_index < entries@[k2].tail_index by {
            assert(idx[k1] == entries@[k1].tail_index as int);
            assert(idx[k2] == entries@[k2].tail_index as int);
        }
        assert forall|j: int|
            #![trigger lines@[j]]
            0 <= j < lines@.len() && parse_entry_spec(lines@[j]@, j as usize) is Some implies exists|k: int|
                0 <= k < entries@.len() && Some(#[trigger] entries@[k]@) == parse_entry_spec(
                    lines@[j]@,
                    j as usize,
                ) by {
            assert(sv[j] == lines@[j]@);
            let k = lemma_parsed_entries_keep_every_parsing_line(sv, j);
            assert(views(entries@)[k] == entries@[k]@);
        }
        if forall|i: int| 0 <= i < lines@.len() ==> #[trigger] parse_entry_spec(lines@[i]@, i as usize) is Some {
            assert forall|i: int| 0 <= i < sv.len() implies #[trigger] parse_entry_spec(sv[i], i as usize) is Some by {
                assert(sv[i] == lines@[i]@);
            }
            lemma_parsed_entries_of_parsing_lines(sv);
            assert forall|i: int|
                #![trigger entries@[i]]
                0 <= i < lines@.len() implies Some(entries@[i]@) == parse_entry_spec(lines@[i]@, i as usize)
                    && entries@[i].tail_index == i by {
                assert(sv[i] == lines@[i]@);
                assert(views(entries@)[i] == entries@[i]@);
                assert(parsed_entries(sv)[i] == entries@[i]@);
            }
        }
    }
    entries
}

/// No later entry has the same command as entry `i`.
pub open spec fn is_last_of_command(s: Seq<HistoryEntryView>, i: int) -> bool {
    forall|j: int| i < j < s.len() ==> #[trigger] s[j].command != s[i].command
}

/// The entries among the first `n` that are the last of their command, in order.
pub open spec fn kept_last(s: Seq<HistoryEntryView>, n: int) -> Seq<HistoryEntryView>
    decreases n,
{
    if n <= 0 {
        Seq::empty()
    } else {
        let before = kept_last(s, n - 1);
        if is_last_of_command(s, n - 1) {
            before.push(s[n - 1])
        } else {
            before
        }
    }
}

/// The entries that are the last occurrence of their command, in their order.
pub open spec fn dedup_spec(s: Seq<HistoryEntryView>) -> Seq<HistoryEntryView> {
    kept_last(s, s.len() as int)
}

/// Keeps, for each command, only its most recent entry; the entries kept stay
/// in their order.
pub fn dedup(entries: &[HistoryEntry]) -> (out: Vec<HistoryEntry>)
    ensures
        views(out@) == dedup_spec(views(entries@)),
{
    let ghost s = views(entries@);
    let mut out: Vec<HistoryEntry> = Vec::new();
    let n = entries.len();
    let mut i: usize = 0;
    while i < n
        invariant
            n == entries@.len(),
            s == views(entries@),
            i <= n,
            views(out@) == kept_last(s, i as int),
        decreases n - i,
    {
        let mut later = false;
        let mut j: usize = i + 1;
        while j < n
            invariant
                n == entries@.len(),
                s == views(entries@),
                i < n,
                i + 1 <= j <= n,
                !later ==> forall|k: int| i < k < j ==> #[trigger] s[k].command != s[i as int].command,
                later ==> !is_last_of_command(s, i as int),
            decreases n - j,
        {
            if entries[j].command == entries[i].command {
                later = true;
                assert(s[j as int].command == s[i as int].command);
                j = n;
            } else {
                j += 1;
            }
        }
        let ghost before = out@;
        if !later {
            out.push(clone_entry(&entries[i]));
            assert(views(out@) == views(before).push(s[i as int]));
        }
        i += 1;
    }
    out
}

/// The indices of the entries that `kept_last(s, n)` keeps: increasing, each
/// the last of its command, and all such indices below `n`.
pub proof fn kept_indices(s: Seq<HistoryEntryView>, n: int) -> (idx: Seq<int>)
    requires
        0 <= n <= s.len(),
    ensures
        idx.len() == kept_last(s, n).len(),
        forall|k: int| 0 <= k < idx.len() ==> 0 <= #[trigger] idx[k] < n,
        forall|k: int| 0 <= k < idx.len() ==> is_last_of_command(s, #[trigger] idx[k]),
        forall|k: int| 0 <= k < idx.len() ==> kept_last(s, n)[k] == s[#[trigger] idx[k]],
        forall|k1: int, k2: int| 0 <= k1 < k2 < idx.len() ==> idx[k1] < idx[k2],
        forall|i: int| 0 <= i < n && is_last_of_command(s, i) ==> idx.contains(i),
    decreases n,
{
    if n == 0 {
        Seq::empty()
    } else {
        let before = kept_indices(s, n - 1);
        if is_last_of_command(s, n - 1) {
            let idx = before.push(n - 1);
            assert forall|i: int| 0 <= i < n && is_last_of_command(s, i) implies idx.contains(i) by {
                if i < n - 1 {
                    let k = choose|k: int| 0 <= k < before.len() && before[k] == i;
                    assert(idx[k] == i);
                } else {
                    assert(idx[idx.len() - 1] == i);
                }
            }
            idx
        } else {
            assert forall|i: int| 0 <= i < n && is_last_of_command(s, i) implies before.contains(i) by {
                assert(i != n - 1);
            }
            before
        }
    }
}

proof fn lemma_last_occurrence_exists(s: Seq<HistoryEntryView>, i: int) -> (j: int)
    requires
        0 <= i < s.len(),
    ensures
        i <= j < s.len(),
        s[j].command == s[i].command,
        is_last_of_command(s, j),
    decreases s.len() - i,
{
    if is_last_of_command(s, i) {
        i
    } else {
        let k = choose|k: int| i < k < s.len() && #[trigger] s[k].command != s[i].command == false;
        lemma_last_occurrence_exists(s, k)
    }
}

/// Deduplication leaves no two entries with the same command, keeps every
/// command that occurs, and keeps for each command its last entry.
pub proof fn lemma_dedup_keeps_each_command_once(s: Seq<HistoryEntryView>)
    ensures
        forall|a: int, b: int|
            0 <= a < b < dedup_spec(s).len() ==> #[trigger] dedup_spec(s)[a].command
                != #[trigger] dedup_spec(s)[b].command,
        forall|i: int|
            #![trigger s[i]]
            0 <= i < s.len() ==> exists|k: int|
                #![trigger dedup_spec(s)[k]]
                0 <= k < dedup_spec(s).len() && dedup_spec(s)[k].command == s[i].command,
        forall|k: int|
            0 <= k < dedup_spec(s).len() ==> exists|i: int|
                0 <= i < s.len() && is_last_of_command(s, i) && #[trigger] dedup_spec(s)[k]
                    == #[trigger] s[i],
{
    let r = dedup_spec(s);
    let idx = kept_indices(s, s.len() as int);
    assert forall|a: int, b: int| 0 <= a < b < r.len() implies #[trigger] r[a].command
        != #[trigger] r[b].command by {
        assert(idx[a] < idx[b]);
        assert(is_last_of_command(s, idx[a]));
        assert(s[idx[b]].command != s[idx[a]].command);
    }
    assert forall|i: int| #![trigger s[i]] 0 <= i < s.len() implies exists|k: int|
        #![trigger dedup_spec(s)[k]]
        0 <= k < dedup_spec(s).len() && dedup_spec(s)[k].command == s[i].command by {
        let j = lemma_last_occurrence_exists(s, i);
        assert(idx.contains(j));
        let k = choose|k: int| 0 <= k < idx.len() && idx[k] == j;
        assert(r[k] == s[j]);
        assert(dedup_spec(s)[k].command == s[i].command);
    }
    assert forall|k: int| 0 <= k < r.len() implies exists|i: int|
        0 <= i < s.len() && is_last_of_command(s, i) && #[trigger] r[k] == #[trigger] s[i] by {
        assert(r[k] == s[idx[k]]);
    }
}

proof fn lemma_kept_last_of_distinct(s: Seq<HistoryEntryView>, n: int)
    requires
        0 <= n <= s.len(),
        forall|a: int, b: int| 0 <= a < b < s.len() ==> #[trigger] s[a].command != #[trigger] s[b].command,
    ensures
        kept_last(s, n) == s.take(n),
    decreases n,
{
    if n > 0 {
        lemma_kept_last_of_distinct(s, n - 1);
        assert(is_last_of_command(s, n - 1));
        assert(s.take(n) == s.take(n - 1).push(s[n - 1]));
    }
}

/// Deduplicating twice gives what deduplicating once gives.
pub proof fn lemma_dedup_idempotent(s: Seq<HistoryEntryView>)
    ensures
        dedup_spec(dedup_spec(s)) == dedup_spec(s),
{
    let r = dedup_spec(s);
    lemma_dedup_keeps_each_command_once(s);
    lemma_kept_last_of_distinct(r, r.len() as int);
    assert(r.take(r.len() as int) == r);
}

/// `regex::Regex`, held as it is.
#[verifier::external_type_specification]
#[verifier::external_body]
pub struct ExRegex(regex::Regex);

/// Whether `regex::Regex::new` accepts `pattern`.
pub uninterp spec fn regex_compiles(pattern: Seq<char>) -> bool;

/// Whether the regular expression compiled from `pattern` matches somewhere in `haystack`.
pub uninterp spec fn regex_is_match(pattern: Seq<char>, haystack: Seq<char>) -> bool;

/// Calls `regex::Regex::new`: it gives a regex exactly when `regex_compiles(source@)`;
/// which patterns compile is not stated here.
#[verifier::external_body]
fn compile_regex(source: &str) -> (res: Option<regex::Regex>)
    ensures
        res is Some <==> regex_compiles(source@),
{
    match regex::Regex::new(source) {
        Ok(re) => Some(re),
        Err(_) => None,
    }
}

/// A regular expression together with the pattern it was compiled from.
pub struct Pattern {
    source: String,
    regex: regex::Regex,
}

impl View for Pattern {
    type V = Seq<char>;

    closed spec fn view(&self) -> Seq<char> {
        self.source@
    }
}

/// Calls `regex::Regex::is_match` on the regex of `pattern`, which was
/// compiled from `pattern@`; the answer is named `regex_is_match(pattern@, haystack@)`.
#[verifier::external_body]
fn pattern_is_match(pattern: &Pattern, haystack: &str) -> (res: bool)
    ensures
        res == regex_is_match(pattern@, haystack@),
{
    pattern.regex.is_match(haystack)
}

impl Pattern {
    /// Compiles `source`; `None` when it is not a valid regular expression.
    pub fn new(source: &str) -> (res: Option<Pattern>)
        ensures
            res is Some <==> regex_compiles(source@),
            res matches Some(p) ==> p@ == source@,
    {
        match compile_regex(source) {
            Some(regex) => {
                let mut text = String::new();
                crate::text::push_str(&mut text, source);
                Some(Pattern { source: text, regex })
            },
            None => None,
        }
    }

    /// The pattern this regex was compiled from.
    pub fn source(&self) -> (res: &str)
        ensures
            res@ == self@,
    {
        self.source.as_str()
    }

    /// Whether the regex matches somewhere in `haystack`.
    pub fn is_match(&self, haystack: &str) -> (res: bool)
        ensures
            res == regex_is_match(self@, haystack@),
    {
        pattern_is_match(self, haystack)
    }
}

/// The view of an optional pattern.
pub open spec fn pattern_view(o: Option<Pattern>) -> Option<Seq<char>> {
    match o {
        Some(p) => Some(p@),
        None => None,
    }
}

/// Whether `prefix` starts `s`.
pub fn starts_with(s: &str, prefix: &str) -> (res: bool)
    ensures
        res == prefix@.is_prefix_of(s@),
{
    let a = chars_of(s);
    let b = chars_of(prefix);
    if b.len() > a.len() {
        return false;
    }
    let mut i: usize = 0;
    while i < b.len()
        invariant
            a@ == s@,
            b@ == prefix@,
            b@.len() <= a@.len(),
            i <= b@.len(),
            forall|k: int| 0 <= k < i ==> a@[k] == b@[k],
        decreases b@.len() - i,
    {
        if a[i] != b[i] {
            assert(a@.subrange(0, b@.len() as int)[i as int] != b@[i as int]);
            assert(!(b@ =~= a@.subrange(0, b@.len() as int)));
            return false;
        }
        i += 1;
    }
    assert(a@.subrange(0, b@.len() as int) == b@);
    true
}

/// `directory` lies in the tree of `current`: it is `current`, or goes on
/// from it after a `/` (`current` ending with `/` counts as that `/`).
pub open spec fn in_tree(directory: Seq<char>, current: Seq<char>) -> bool {
    &&& current.is_prefix_of(directory)
    &&& (directory.len() == current.len() || directory[current.len() as int] == '/' || (
    current.len() > 0 && current.last() == '/'))
}

/// Whether `directory` lies in the tree of `current` (see `in_tree`).
pub fn is_in_tree(directory: &str, current: &str) -> (res: bool)
    ensures
        res == in_tree(directory@, current@),
{
    if !starts_with(directory, current) {
        return false;
    }
    let d = chars_of(directory);
    let c = chars_of(current);
    d.len() == c.len() || d[c.len()] == '/' || (c.len() > 0 && c[c.len() - 1] == '/')
}

/// An entry passes when its command matches the command pattern, its
/// directory matches the directory pattern, and its directory lies in the
/// tree of the current directory; each test applies only when it is given.
pub open spec fn passes(
    e: HistoryEntryView,
    command_pattern: Option<Seq<char>>,
    directory_pattern: Option<Seq<char>>,
    current_directory: Option<Seq<char>>,
) -> bool {
    &&& (command_pattern matches Some(p) ==> regex_is_match(p, e.command))
    &&& (directory_pattern matches Some(p) ==> regex_is_match(p, e.directory))
    &&& (current_directory matches Some(c) ==> in_tree(e.directory, c))
}

/// The entries that pass, in their order.
pub open spec fn filtered(
    s: Seq<HistoryEntryView>,
    command_pattern: Option<Seq<char>>,
    directory_pattern: Option<Seq<char>>,
    current_directory: Option<Seq<char>>,
) -> Seq<HistoryEntryView>
    decreases s.len(),
{
    if s.len() == 0 {
        Seq::empty()
    } else {
        let before = filtered(s.drop_last(), command_pattern, directory_pattern, current_directory);
        if passes(s.last(), command_pattern, directory_pattern, current_directory) {
            before.push(s.last())
        } else {
            before
        }
    }
}

fn entry_passes(
    e: &HistoryEntry,
    command_regex: &Option<Pattern>,
    directory_regex: &Option<Pattern>,
    current_directory: &Option<String>,
) -> (res: bool)
    ensures
        res == passes(
            e@,
            pattern_view(*command_regex),
            pattern_view(*directory_regex),
            option_view(*current_directory),
        ),
{
    if let Some(pattern) = command_regex {
        if !pattern.is_match(e.command.as_str()) {
            return false;
        }
    }
    if let Some(pattern) = directory_regex {
        if !pattern.is_match(e.directory.as_str()) {
            return false;
        }
    }
    if let Some(current) = current_directory {
        if !is_in_tree(e.directory.as_str(), current.as_str()) {
            return false;
        }
    }
    true
}

/// Keeps the entries whose command matches `command_regex`, whose directory
/// matches `directory_regex`, and whose directory lies in the tree of
/// `current_directory`; a test that is not given keeps every entry.
pub fn filter(
    entries: Vec<HistoryEntry>,
    command_regex: &Option<Pattern>,
    directory_regex: &Option<Pattern>,
    current_directory: &Option<String>,
) -> (out: Vec<HistoryEntry>)
    ensures
        views(out@) == filtered(
            views(entries@),
            pattern_view(*command_regex),
            pattern_view(*directory_regex),
            option_view(*current_directory),
        ),
        forall|k: int|
            #![trigger out@[k]]
            0 <= k < out@.len() ==> {
                &&& (pattern_view(*command_regex) is Some ==> regex_is_match(pattern_view(*command_regex).unwrap(),
                    out@[k]@.command,
                ))
                &&& (pattern_view(*directory_regex) is Some ==> regex_is_match(pattern_view(*directory_regex).unwrap(),
                    out@[k]@.directory,
                ))
                &&& (option_view(*current_directory) is Some ==> in_tree(out@[k]@.directory, option_view(*current_directory).unwrap()))
            },
        forall|j: int|
            #![trigger entries@[j]]
            (0 <= j < entries@.len() && (pattern_view(*command_regex) is Some ==> regex_is_match(pattern_view(*command_regex).unwrap(), entries@[j]@.command)) && (pattern_view(*directory_regex) is Some ==> regex_is_match(pattern_view(*directory_regex).unwrap(), entries@[j]@.directory)) && (option_view(*current_directory) is Some ==> in_tree(entries@[j]@.directory, option_view(*current_directory).unwrap()))) ==> views(out@).contains(
                entries@[j]@,
            ),
{
    proof {
        let idx = lemma_filter_selects_exactly(
            views(entries@),
            pattern_view(*command_regex),
            pattern_view(*directory_regex),
            option_view(*current_directory),
        );
    }
    let ghost cp = pattern_view(*command_regex);
    let ghost dp = pattern_view(*directory_regex);
    let ghost cd = option_view(*current_directory);
    let mut out: Vec<HistoryEntry> = Vec::new();
    let mut i: usize = 0;
    while i < entries.len()
        invariant
            cp == pattern_view(*command_regex),
            dp == pattern_view(*directory_regex),
            cd == option_view(*current_directory),
            i <= entries@.len(),
            views(out@) == filtered(views(entries@).take(i as int), cp, dp, cd),
        decreases entries@.len() - i,
    {
        let keep = entry_passes(&entries[i], command_regex, directory_regex, current_directory);
        let ghost before = out@;
        assert(views(entries@).take(i + 1).drop_last() == views(entries@).take(i as int));
        if keep {
            out.push(clone_entry(&entries[i]));
            assert(views(out@) == views(before).push(entries@[i as int]@));
        }
        i += 1;
    }
    assert(views(entries@).take(entries@.len() as int) == views(entries@));
    proof {
        let idx = lemma_filter_selects_exactly(views(entries@), cp, dp, cd);
        assert forall|k: int| #![trigger out@[k]] 0 <= k < out@.len() implies {
            &&& (cp is Some ==> regex_is_match(cp.unwrap(), out@[k]@.command))
            &&& (dp is Some ==> regex_is_match(dp.unwrap(), out@[k]@.directory))
            &&& (cd is Some ==> in_tree(out@[k]@.directory, cd.unwrap()))
        } by {
            assert(views(out@)[k] == out@[k]@);
        }
        assert forall|j: int|
            #![trigger entries@[j]]
            (0 <= j < entries@.len() && (cp is Some ==> regex_is_match(cp.unwrap(),
                entries@[j]@.command,
            )) && (dp is Some ==> regex_is_match(dp.unwrap(), entries@[j]@.directory)) && (cd is Some ==> in_tree(entries@[j]@.directory, cd.unwrap()))) implies views(
            out@,
        ).contains(entries@[j]@) by {
            assert(views(entries@)[j] == entries@[j]@);
            let k = lemma_filter_keeps_every_passing_entry(views(entries@), cp, dp, cd, j);
            assert(views(out@)[k] == entries@[j]@);
        }
    }
    out
}

/// The filter keeps exactly the entries that pass every test given, in
/// their order: the entries kept are those at increasing positions of the
/// input, each kept entry's command matches the command pattern, its
/// directory matches the directory pattern and lies in the tree of the
/// current directory (each when given).
pub proof fn lemma_filter_selects_exactly(
    s: Seq<HistoryEntryView>,
    cp: Option<Seq<char>>,
    dp: Option<Seq<char>>,
    cd: Option<Seq<char>>,
) -> (idx: Seq<int>)
    ensures
        idx.len() == filtered(s, cp, dp, cd).len(),
        forall|k: int| 0 <= k < idx.len() ==> 0 <= #[trigger] idx[k] < s.len(),
        forall|k1: int, k2: int| 0 <= k1 < k2 < idx.len() ==> idx[k1] < idx[k2],
        forall|k: int| 0 <= k < idx.len() ==> filtered(s, cp, dp, cd)[k] == s[#[trigger] idx[k]],
        forall|k: int|
            #![trigger filtered(s, cp, dp, cd)[k]]
            0 <= k < filtered(s, cp, dp, cd).len() ==> {
                let e = filtered(s, cp, dp, cd)[k];
                &&& (cp is Some ==> regex_is_match(cp.unwrap(), e.command))
                &&& (dp is Some ==> regex_is_match(dp.unwrap(), e.directory))
                &&& (cd is Some ==> in_tree(e.directory, cd.unwrap()))
            },
    decreases s.len(),
{
    if s.len() == 0 {
        Seq::empty()
    } else {
        let d = s.drop_last();
        let before = lemma_filter_selects_exactly(d, cp, dp, cd);
        let last = s.len() - 1;
        if passes(s.last(), cp, dp, cd) {
            let idx = before.push(last);
            assert forall|k: int| 0 <= k < idx.len() implies filtered(s, cp, dp, cd)[k] == s[
                #[trigger] idx[k]] by {
                if k < before.len() {
                    assert(d[before[k]] == s[before[k]]);
                }
            }
            idx
        } else {
            assert forall|k: int| 0 <= k < before.len() implies filtered(s, cp, dp, cd)[k] == s[
                #[trigger] before[k]] by {
                assert(d[before[k]] == s[before[k]]);
            }
            before
        }
    }
}

/// Every input entry whose command matches the command pattern, whose
/// directory matches the directory pattern and whose directory lies in the
/// tree of the current directory (each test only when given) is kept: the
/// result holds it at some position.
pub proof fn lemma_filter_keeps_every_passing_entry(
    s: Seq<HistoryEntryView>,
    cp: Option<Seq<char>>,
    dp: Option<Seq<char>>,
    cd: Option<Seq<char>>,
    j: int,
) -> (k: int)
    requires
        0 <= j < s.len(),
        cp is Some ==> regex_is_match(cp.unwrap(), s[j].command),
        dp is Some ==> regex_is_match(dp.unwrap(), s[j].directory),
        cd is Some ==> in_tree(s[j].directory, cd.unwrap()),
    ensures
        0 <= k < filtered(s, cp, dp, cd).len(),
        filtered(s, cp, dp, cd)[k] == s[j],
    decreases s.len(),
{
    let d = s.drop_last();
    if j == s.len() - 1 {
        filtered(d, cp, dp, cd).len() as int
    } else {
        assert(d[j] == s[j]);
        lemma_filter_keeps_every_passing_entry(d, cp, dp, cd, j)
    }
}

proof fn lemma_filtered_members(
    s: Seq<HistoryEntryView>,
    cp: Option<Seq<char>>,
    dp: Option<Seq<char>>,
    cd: Option<Seq<char>>,
)
    ensures
        forall|k: int|
            0 <= k < filtered(s, cp, dp, cd).len() ==> passes(
                #[trigger] filtered(s, cp, dp, cd)[k],
                cp,
                dp,
                cd,
            ),
        forall|k: int|
            0 <= k < filtered(s, cp, dp, cd).len() ==> s.contains(
                #[trigger] filtered(s, cp, dp, cd)[k],
            ),
        filtered(s, cp, dp, cd).len() <= s.len(),
    decreases s.len(),
{
    if s.len() > 0 {
        lemma_filtered_members(s.drop_last(), cp, dp, cd);
        let before = filtered(s.drop_last(), cp, dp, cd);
        assert forall|k: int| 0 <= k < before.len() implies s.contains(#[trigger] before[k]) by {
            let j = choose|j: int| 0 <= j < s.drop_last().len() && s.drop_last()[j] == before[k];
            assert(s[j] == before[k]);
        }
        assert(s[s.len() - 1] == s.last());
    }
}

/// Every entry that the filter keeps passes all the tests given, and came from the input.
pub proof fn lemma_filter_keeps_only_passing(
    s: Seq<HistoryEntryView>,
    cp: Option<Seq<char>>,
    dp: Option<Seq<char>>,
    cd: Option<Seq<char>>,
)
    ensures
        forall|k: int|
            0 <= k < filtered(s, cp, dp, cd).len() ==> passes(
                #[trigger] filtered(s, cp, dp, cd)[k],
                cp,
                dp,
                cd,
            ) && s.contains(filtered(s, cp, dp, cd)[k]),
{
    lemma_filtered_members(s, cp, dp, cd);
}

/// With no pattern and no current directory, the filter keeps every entry.
pub proof fn lemma_filter_without_tests_keeps_all(s: Seq<HistoryEntryView>)
    ensures
        filtered(s, None, None, None) == s,
    decreases s.len(),
{
    if s.len() > 0 {
        lemma_filter_without_tests_keeps_all(s.drop_last());
        assert(s.drop_last().push(s.last()) == s);
    }
}

proof fn lemma_filtered_of_passing(
    s: Seq<HistoryEntryView>,
    cp: Option<Seq<char>>,
    dp: Option<Seq<char>>,
    cd: Option<Seq<char>>,
)
    requires
        forall|k: int| 0 <= k < s.len() ==> passes(#[trigger] s[k], cp, dp, cd),
    ensures
        filtered(s, cp, dp, cd) == s,
    decreases s.len(),
{
    if s.len() > 0 {
        lemma_filtered_of_passing(s.drop_last(), cp, dp, cd);
        assert(passes(s[s.len() - 1], cp, dp, cd));
        assert(s.drop_last().push(s.last()) == s);
    }
}

/// Filtering twice with the same tests gives what filtering once gives.
pub proof fn lemma_filter_idempotent(
    s: Seq<HistoryEntryView>,
    cp: Option<Seq<char>>,
    dp: Option<Seq<char>>,
    cd: Option<Seq<char>>,
)
    ensures
        filtered(filtered(s, cp, dp, cd), cp, dp, cd) == filtered(s, cp, dp, cd),
{
    lemma_filtered_members(s, cp, dp, cd);
    lemma_filtered_of_passing(filtered(s, cp, dp, cd), cp, dp, cd);
}

} // verus!
