//! The interactive picker: its input, the text of its menu, and the key
//! bindings that drive it, as a machine from a state and a key to the next
//! state and the effects that the terminal loop carries out.
use vstd::prelude::*;

use vstd::utf8::{encode_utf8, is_char_boundary};

use crate::clipboard::YankResult;
use crate::display::DisplayEntryView;
use crate::history::HistoryEntry;
use crate::text::{
    byte_len, byte_prefix, byte_prefix_spec, decimal, decimal_string, pad_left, pad_right,
    push_padded_left, push_padded_right, push_str,
};

verus! {

/// What the picker shows and acts on.
pub struct PickerInput {
    pub items: Vec<DisplayEntry>,
    pub all_entries: Vec<HistoryEntry>,
    pub context_lines: usize,
    pub home_dir: Option<String>,
}

/// One numbered line of the menu.
pub struct DisplayEntry {
    pub command: String,
    pub directory_display: String,
    pub timestamp_display: String,
    pub tail_index: usize,
}

/// What a chosen number does: copy the command, or show its surroundings.
#[derive(Clone, Copy, Debug, PartialEq, Eq, Structural)]
pub enum Mode {
    Select,
    Context,
}

/// The picker between two keys: its mode and the number typed so far
/// (zero while nothing is typed; a typed number never starts with 0).
#[derive(Clone, Copy, Debug, PartialEq, Eq, Structural)]
pub struct PickerState {
    pub mode: Mode,
    pub digits: usize,
}

/// Something the terminal loop does in answer to a key.
#[derive(Clone, Copy, Debug, PartialEq, Eq, Structural)]
pub enum PickerEffect {
    /// Write the typed digit.
    Echo(char),
    /// Rub out the last digit written ("\x08 \x08").
    Erase,
    /// End the current output line.
    NewLine,
    /// Write the prompt of the given mode.
    Prompt(Mode),
    /// Act on the menu item at `index` (zero-based) in the given mode.
    Choose { index: usize, mode: Mode },
}

/// The answer to one key.
pub struct PickerStep {
    pub state: PickerState,
    pub effects: Vec<PickerEffect>,
    pub quit: bool,
}

/// The state in which the picker starts.
pub open spec fn initial_state() -> PickerState {
    PickerState { mode: Mode::Select, digits: 0 }
}

/// `q`, `Q` and escape leave context mode, or else the picker.
pub open spec fn is_quit_key(key: u8) -> bool {
    key == 0x71 || key == 0x51 || key == 0x1b
}

/// `c` and `C` switch to context mode.
pub open spec fn is_context_key(key: u8) -> bool {
    key == 0x63 || key == 0x43
}

/// Carriage return and line feed.
pub open spec fn is_enter_key(key: u8) -> bool {
    key == 0x0d || key == 0x0a
}

/// `0` to `9`.
pub open spec fn is_digit_key(key: u8) -> bool {
    0x30 <= key <= 0x39
}

/// Delete and backspace.
pub open spec fn is_erase_key(key: u8) -> bool {
    key == 0x7f || key == 0x08
}

/// Acting on item `number` (one-based): the effects `before`, then the
/// choice; in context mode the picker then goes back to select mode and
/// prompts again, in select mode it ends.
pub open spec fn chosen(
    s: PickerState,
    number: int,
    before: Seq<PickerEffect>,
) -> (PickerState, Seq<PickerEffect>, bool) {
    let choice = PickerEffect::Choose { index: (number - 1) as usize, mode: s.mode };
    if s.mode == Mode::Context {
        (
            PickerState { mode: Mode::Select, digits: 0 },
            before.push(choice).push(PickerEffect::Prompt(Mode::Select)),
            false,
        )
    } else {
        (s, before.push(choice), true)
    }
}

/// The key bindings: the next state, the effects in order, and whether the
/// picker ends, after `key` in state `s` with `count` items on the menu.
pub open spec fn picker_next(s: PickerState, key: u8, count: nat) -> (
    PickerState,
    Seq<PickerEffect>,
    bool,
) {
    if is_quit_key(key) {
        if s.mode == Mode::Context {
            (
                PickerState { mode: Mode::Select, digits: 0 },
                seq![PickerEffect::Prompt(Mode::Select)],
                false,
            )
        } else {
            (s, seq![PickerEffect::NewLine], true)
        }
    } else if is_context_key(key) && s.mode == Mode::Select && s.digits == 0 {
        (
            PickerState { mode: Mode::Context, digits: 0 },
            seq![PickerEffect::Prompt(Mode::Context)],
            false,
        )
    } else if is_enter_key(key) {
        if s.digits == 0 {
            if s.mode == Mode::Context {
                (
                    PickerState { mode: Mode::Select, digits: 0 },
                    seq![PickerEffect::NewLine, PickerEffect::Prompt(Mode::Select)],
                    false,
                )
            } else {
                (s, seq![PickerEffect::NewLine], true)
            }
        } else if s.digits <= count {
            chosen(s, s.digits as int, seq![PickerEffect::NewLine])
        } else {
            (PickerState { mode: s.mode, digits: 0 }, seq![PickerEffect::NewLine], false)
        }
    } else if is_digit_key(key) {
        let n = s.digits * 10 + (key - 0x30);
        if n < 1 || n > count {
            (s, Seq::empty(), false)
        } else if n * 10 > count {
            chosen(
                PickerState { mode: s.mode, digits: n as usize },
                n,
                seq![PickerEffect::Echo(key as char), PickerEffect::NewLine],
            )
        } else {
            (PickerState { mode: s.mode, digits: n as usize }, seq![PickerEffect::Echo(key as char)], false)
        }
    } else if is_erase_key(key) && s.digits > 0 {
        (PickerState { mode: s.mode, digits: s.digits / 10 }, seq![PickerEffect::Erase], false)
    } else {
        (s, Seq::empty(), false)
    }
}

/// The state in which the picker starts: select mode, nothing typed.
pub fn start_state() -> (s: PickerState)
    ensures
        s == initial_state(),
{
    PickerState { mode: Mode::Select, digits: 0 }
}

fn finish_choice(s: PickerState, number: usize, mut effects: Vec<PickerEffect>) -> (step: PickerStep)
    requires
        number >= 1,
    ensures
        (step.state, step.effects@, step.quit) == chosen(s, number as int, effects@),
{
    effects.push(PickerEffect::Choose { index: number - 1, mode: s.mode });
    if s.mode == Mode::Context {
        effects.push(PickerEffect::Prompt(Mode::Select));
        PickerStep { state: PickerState { mode: Mode::Select, digits: 0 }, effects, quit: false }
    } else {
        PickerStep { state: s, effects, quit: true }
    }
}

/// Answers one key: `key` pressed in state `s` with `count` items on the menu.
pub fn picker_step(s: PickerState, key: u8, count: usize) -> (step: PickerStep)
    ensures
        (step.state, step.effects@, step.quit) == picker_next(s, key, count as nat),
        is_enter_key(key) && 1 <= s.digits <= count ==> step.effects@.contains(
            PickerEffect::Choose { index: (s.digits - 1) as usize, mode: s.mode },
        ),
        is_enter_key(key) && 1 <= s.digits <= count ==> (step.quit <==> s.mode == Mode::Select),
{
    proof {
        lemma_enter_chooses_typed_number(s, key, count as nat);
    }
    let mut effects: Vec<PickerEffect> = Vec::new();
    if key == 0x71 || key == 0x51 || key == 0x1b {
        if s.mode == Mode::Context {
            effects.push(PickerEffect::Prompt(Mode::Select));
            PickerStep { state: PickerState { mode: Mode::Select, digits: 0 }, effects, quit: false }
        } else {
            effects.push(PickerEffect::NewLine);
            PickerStep { state: s, effects, quit: true }
        }
    } else if (key == 0x63 || key == 0x43) && s.mode == Mode::Select && s.digits == 0 {
        effects.push(PickerEffect::Prompt(Mode::Context));
        PickerStep { state: PickerState { mode: Mode::Context, digits: 0 }, effects, quit: false }
    } else if key == 0x0d || key == 0x0a {
        effects.push(PickerEffect::NewLine);
        if s.digits == 0 {
            if s.mode == Mode::Context {
                effects.push(PickerEffect::Prompt(Mode::Select));
                PickerStep { state: PickerState { mode: Mode::Select, digits: 0 }, effects, quit: false }
            } else {
                PickerStep { state: s, effects, quit: true }
            }
        } else if s.digits <= count {
            finish_choice(s, s.digits, effects)
        } else {
            PickerStep { state: PickerState { mode: s.mode, digits: 0 }, effects, quit: false }
        }
    } else if 0x30 <= key && key <= 0x39 {
        let d = (key - 0x30) as usize;
        if s.digits > (usize::MAX - d) / 10 {
            // the number would not fit in a usize, so it is above `count`
            PickerStep { state: s, effects, quit: false }
        } else {
            let n = s.digits * 10 + d;
            if n < 1 || n > count {
                PickerStep { state: s, effects, quit: false }
            } else {
                effects.push(PickerEffect::Echo(key as char));
                let next = PickerState { mode: s.mode, digits: n };
                if n > count / 10 {
                    effects.push(PickerEffect::NewLine);
                    finish_choice(next, n, effects)
                } else {
                    PickerStep { state: next, effects, quit: false }
                }
            }
        }
    } else if (key == 0x7f || key == 0x08) && s.digits > 0 {
        effects.push(PickerEffect::Erase);
        PickerStep { state: PickerState { mode: s.mode, digits: s.digits / 10 }, effects, quit: false }
    } else {
        PickerStep { state: s, effects, quit: false }
    }
}

/// Every key keeps the typed number within the menu: if it names an item (or
/// nothing) before the key, it still does after.
pub proof fn lemma_typed_number_stays_on_menu(s: PickerState, key: u8, count: nat)
    requires
        s.digits <= count,
    ensures
        picker_next(s, key, count).0.digits <= count,
{
}

/// Enter with a typed number `d` on the menu acts on item `d` in the current
/// mode, in either mode: the line ends, item `d - 1` (zero-based) is chosen;
/// in select mode the picker then ends, in context mode it goes back to
/// select mode with nothing typed and prompts again.
pub proof fn lemma_enter_chooses_typed_number(s: PickerState, key: u8, count: nat)
    ensures
        is_enter_key(key) && 1 <= s.digits <= count ==> {
            let (next, effects, quit) = picker_next(s, key, count);
            let choice = PickerEffect::Choose { index: (s.digits - 1) as usize, mode: s.mode };
            &&& effects[0] == PickerEffect::NewLine
            &&& effects[1] == choice
            &&& effects.contains(choice)
            &&& (s.mode == Mode::Select ==> quit && effects.len() == 2)
            &&& (s.mode == Mode::Context ==> !quit && next == PickerState {
                mode: Mode::Select,
                digits: 0,
            } && effects.len() == 3 && effects[2] == PickerEffect::Prompt(Mode::Select))
        },
{
    if is_enter_key(key) && 1 <= s.digits <= count {
        let effects = picker_next(s, key, count).1;
        assert(effects[1] == PickerEffect::Choose { index: (s.digits - 1) as usize, mode: s.mode });
    }
}

/// A digit that makes the typed number `n` an item on the menu, with no
/// longer number on the menu that starts with it, acts on item `n` at once.
pub proof fn lemma_digit_completes_number(s: PickerState, key: u8, count: nat)
    ensures
        ({
            let n = s.digits * 10 + (key - 0x30);
            is_digit_key(key) && 1 <= n <= count && n * 10 > count ==> picker_next(
                s,
                key,
                count,
            ).1.contains(PickerEffect::Choose { index: (n - 1) as usize, mode: s.mode })
        }),
{
    let n = s.digits * 10 + (key - 0x30);
    if is_digit_key(key) && 1 <= n <= count && n * 10 > count {
        let effects = picker_next(s, key, count).1;
        assert(effects[2] == PickerEffect::Choose { index: (n - 1) as usize, mode: s.mode });
    }
}

/// Whatever the state, a key only ever chooses an item that is on the menu.
pub proof fn lemma_choice_is_on_menu(s: PickerState, key: u8, count: nat)
    ensures
        forall|i: int|
            0 <= i < picker_next(s, key, count).1.len() ==> match #[trigger] picker_next(
                s,
                key,
                count,
            ).1[i] {
                PickerEffect::Choose { index, mode } => index < count && mode == s.mode,
                _ => true,
            },
{
}

/// The picker ends only from select mode; in context mode a quit key or an
/// empty line goes back to select mode instead.
pub proof fn lemma_quit_only_from_select(s: PickerState, key: u8, count: nat)
    ensures
        picker_next(s, key, count).2 ==> s.mode == Mode::Select,
        s.mode == Mode::Context && (is_quit_key(key) || (is_enter_key(key) && s.digits == 0))
            ==> picker_next(s, key, count).0 == initial_state(),
{
}

/// After showing the context of a command, the picker is back in select mode
/// with nothing typed, and has prompted for it.
pub proof fn lemma_context_choice_returns_to_select(s: PickerState, key: u8, count: nat)
    requires
        s.mode == Mode::Context,
        exists|i: int|
            0 <= i < picker_next(s, key, count).1.len() && #[trigger] picker_next(
                s,
                key,
                count,
            ).1[i] is Choose,
    ensures
        picker_next(s, key, count).0 == initial_state(),
        !picker_next(s, key, count).2,
        picker_next(s, key, count).1.last() == PickerEffect::Prompt(Mode::Select),
{
}

/// `text` cut to `max_width` bytes: when longer, its first `max_width - 1`
/// bytes and an ellipsis (just the ellipsis when `max_width` is 0 or 1).
pub open spec fn truncated(text: Seq<char>, max_width: nat) -> Seq<char> {
    if byte_len(text) <= max_width {
        text
    } else if max_width > 1 {
        byte_prefix_spec(text, max_width - 1).push('…')
    } else {
        seq!['…']
    }
}

/// The cut that `truncated` makes falls on a character boundary (else the
/// byte slice would panic).
pub open spec fn truncation_fits(text: Seq<char>, max_width: nat) -> bool {
    byte_len(text) <= max_width || max_width <= 1 || is_char_boundary(
        encode_utf8(text),
        max_width - 1,
    )
}

/// Whether `truncate(text, max_width)` cuts on a character boundary.
pub fn can_truncate(text: &str, max_width: usize) -> (res: bool)
    ensures
        res == truncation_fits(text@, max_width as nat),
{
    text.as_bytes().len() <= max_width || max_width <= 1 || text.is_char_boundary(max_width - 1)
}

/// Cuts `text` to `max_width` bytes, marking the cut with an ellipsis.
pub fn truncate(text: &str, max_width: usize) -> (out: String)
    requires
        truncation_fits(text@, max_width as nat),
    ensures
        out@ == truncated(text@, max_width as nat),
{
    if text.as_bytes().len() <= max_width {
        let mut out = String::new();
        push_str(&mut out, text);
        out
    } else if max_width > 1 {
        let mut out = byte_prefix(text, max_width - 1);
        out.push('…');
        out
    } else {
        let mut out = String::new();
        out.push('…');
        out
    }
}

/// Width of the item numbers: enough digits for the largest.
pub open spec fn number_width(count: nat) -> nat {
    if count >= 100 {
        3
    } else if count >= 10 {
        2
    } else {
        1
    }
}

/// The longest directory of the menu, in bytes.
pub open spec fn widest_directory(items: Seq<DisplayEntryView>) -> nat
    decreases items.len(),
{
    if items.len() == 0 {
        0
    } else {
        let before = widest_directory(items.drop_last());
        let here = byte_len(items.last().directory_display);
        if here > before {
            here
        } else {
            before
        }
    }
}

/// Width of the directory column: the longest directory, at most 30.
pub open spec fn directory_column(items: Seq<DisplayEntryView>) -> nat {
    let widest = widest_directory(items);
    if widest < 30 {
        widest
    } else {
        30
    }
}

/// Width of the command column: what the terminal (`columns` wide, 80 when
/// unknown) leaves beside the other columns, at least 20.
pub open spec fn command_column(count: nat, directory_width: nat, columns: Option<usize>) -> nat {
    let terminal: nat = match columns {
        Some(c) => c as nat,
        None => 80,
    };
    let overhead = number_width(count) + 2 + directory_width + 2 + 12 + 4;
    let room: nat = if terminal > overhead {
        (terminal - overhead) as nat
    } else {
        0
    };
    if room > 20 {
        room
    } else {
        20
    }
}

/// The menu line of item `index` (zero-based): its number right-aligned,
/// its command and directory cut and padded to their columns, its time.
pub open spec fn menu_line(
    index: nat,
    item: DisplayEntryView,
    number_width: nat,
    command_width: nat,
    directory_width: nat,
) -> Seq<char> {
    seq![' '] + pad_left(decimal(index + 1), number_width) + seq![')', ' '] + pad_right(
        truncated(item.command, command_width),
        command_width,
    ) + seq![' ', ' '] + pad_right(truncated(item.directory_display, directory_width), directory_width)
        + seq![' ', ' '] + item.timestamp_display
}

/// Every command and directory of the menu can be cut on a character boundary.
pub open spec fn menu_fits(items: Seq<DisplayEntryView>, columns: Option<usize>) -> bool {
    let dw = directory_column(items);
    let cw = command_column(items.len(), dw, columns);
    forall|k: int|
        #![trigger items[k]]
        0 <= k < items.len() ==> truncation_fits(items[k].command, cw) && truncation_fits(
            items[k].directory_display,
            dw,
        )
}

/// The menu: an empty line, one line per item, an empty line.
pub open spec fn menu_text(items: Seq<DisplayEntryView>, columns: Option<usize>) -> Seq<Seq<char>> {
    let dw = directory_column(items);
    let cw = command_column(items.len(), dw, columns);
    let nw = number_width(items.len());
    seq![Seq::<char>::empty()] + Seq::new(
        items.len(),
        |k: int| menu_line(k as nat, items[k], nw, cw, dw),
    ) + seq![Seq::<char>::empty()]
}

/// The views of the menu items.
pub open spec fn item_views(items: Seq<DisplayEntry>) -> Seq<DisplayEntryView> {
    items.map_values(|i: DisplayEntry| i@)
}

/// The lines of the menu for a terminal `columns` wide (80 when unknown);
/// `None` when some command or directory would be cut inside a character.
pub fn menu_lines(items: &[DisplayEntry], columns: Option<usize>) -> (lines: Option<Vec<String>>)
    ensures
        lines is Some <==> menu_fits(item_views(items@), columns),
        lines matches Some(l) ==> l@.map_values(|s: String| s@) == menu_text(
            item_views(items@),
            columns,
        ),
{
    let ghost v = item_views(items@);
    let count = items.len();
    let number_width: usize = if count >= 100 {
        3
    } else if count >= 10 {
        2
    } else {
        1
    };
    let mut widest: usize = 0;
    let mut i: usize = 0;
    while i < count
        invariant
            count == items@.len(),
            v == item_views(items@),
            i <= count,
            widest == widest_directory(v.take(i as int)),
        decreases count - i,
    {
        let here = items[i].directory_display.as_str().as_bytes().len();
        assert(v.take(i + 1).drop_last() == v.take(i as int));
        assert(v.take(i + 1).last() == items@[i as int]@);
        if here > widest {
            widest = here;
        }
        i += 1;
    }
    assert(v.take(count as int) == v);
    let directory_width: usize = if widest < 30 {
        widest
    } else {
        30
    };
    let terminal: usize = match columns {
        Some(c) => c,
        None => 80,
    };
    let overhead = number_width + 2 + directory_width + 2 + 12 + 4;
    let room = if terminal > overhead {
        terminal - overhead
    } else {
        0
    };
    let command_width = if room > 20 {
        room
    } else {
        20
    };
    let mut i: usize = 0;
    while i < count
        invariant
            count == items@.len(),
            v == item_views(items@),
            i <= count,
            command_width == command_column(count as nat, directory_width as nat, columns),
            directory_width == directory_column(v),
            forall|k: int|
                #![trigger v[k]]
                0 <= k < i ==> truncation_fits(v[k].command, command_width as nat)
                    && truncation_fits(v[k].directory_display, directory_width as nat),
        decreases count - i,
    {
        if !can_truncate(items[i].command.as_str(), command_width) || !can_truncate(
            items[i].directory_display.as_str(),
            directory_width,
        ) {
            assert(!menu_fits(v, columns)) by {
                assert(v[i as int] == items@[i as int]@);
                assert(v.len() == count);
            }
            return None;
        }
        assert(v[i as int] == items@[i as int]@);
        i += 1;
    }
    let mut lines: Vec<String> = Vec::new();
    lines.push(String::new());
    let mut i: usize = 0;
    while i < count
        invariant
            count == items@.len(),
            v == item_views(items@),
            i <= count,
            number_width == crate::picker::number_width(count as nat),
            command_width == command_column(count as nat, directory_width as nat, columns),
            directory_width == directory_column(v),
            menu_fits(v, columns),
            lines@.len() == i + 1,
            lines@[0]@ == Seq::<char>::empty(),
            forall|k: int|
                0 <= k < i ==> #[trigger] lines@[k + 1]@ == menu_line(
                    k as nat,
                    v[k],
                    number_width as nat,
                    command_width as nat,
                    directory_width as nat,
                ),
        decreases count - i,
    {
        let item = &items[i];
        assert(v[i as int] == item@);
        assert(truncation_fits(v[i as int].command, command_width as nat));
        let mut line = String::new();
        line.push(' ');
        let number = decimal_string(i + 1);
        push_padded_left(&mut line, number.as_str(), number_width);
        line.push(')');
        line.push(' ');
        let command = truncate(item.command.as_str(), command_width);
        push_padded_right(&mut line, command.as_str(), command_width);
        line.push(' ');
        line.push(' ');
        let directory = truncate(item.directory_display.as_str(), directory_width);
        push_padded_right(&mut line, directory.as_str(), directory_width);
        line.push(' ');
        line.push(' ');
        push_str(&mut line, item.timestamp_display.as_str());
        lines.push(line);
        i += 1;
    }
    lines.push(String::new());
    proof {
        let expected = menu_text(v, columns);
        let got = lines@.map_values(|s: String| s@);
        assert(got.len() == expected.len());
        assert forall|k: int| 0 <= k < got.len() implies got[k] == expected[k] by {
            if 0 < k < got.len() - 1 {
                assert(lines@[(k - 1) + 1]@ == menu_line(
                    (k - 1) as nat,
                    v[k - 1],
                    number_width as nat,
                    command_width as nat,
                    directory_width as nat,
                ));
            }
        }
        assert(got =~= expected);
    }
    Some(lines)
}

/// What the picker writes in place of a menu when it has nothing to show:
/// `no results`, and only then.
pub fn empty_menu_text(items: &[DisplayEntry]) -> (text: Option<String>)
    ensures
        text is Some <==> items@.len() == 0,
        text matches Some(t) ==> t@ == "no results"@,
{
    if items.len() == 0 {
        let mut t = String::new();
        push_str(&mut t, "no results");
        Some(t)
    } else {
        None
    }
}

/// The prompt of a mode.
pub open spec fn prompt_of(mode: Mode) -> Seq<char> {
    match mode {
        Mode::Select => " pick (c=context, q=quit): "@,
        Mode::Context => " context for (q=back): "@,
    }
}

/// The prompt written in the given mode.
pub fn prompt_text(mode: Mode) -> (text: String)
    ensures
        text@ == prompt_of(mode),
{
    let mut text = String::new();
    match mode {
        Mode::Select => push_str(&mut text, " pick (c=context, q=quit): "),
        Mode::Context => push_str(&mut text, " context for (q=back): "),
    }
    text
}

/// What the picker reports after trying to copy `command`: that it was
/// yanked, or that no clipboard tool was found, followed by the command.
pub open spec fn report_of(yanked: bool, command: Seq<char>) -> Seq<Seq<char>> {
    if yanked {
        seq![" yanked: "@ + command]
    } else {
        seq![" (no clipboard tool found)"@, seq![' '] + command]
    }
}

/// The lines reported after a yank of `command` ended with `result`; both a
/// clipboard tool and OSC 52 count as yanked.
pub fn selection_report(result: &YankResult, command: &str) -> (lines: Vec<String>)
    ensures
        lines@.map_values(|s: String| s@) == report_of(!(result is Failure), command@),
{
    let mut lines: Vec<String> = Vec::new();
    match result {
        YankResult::Failure(_) => {
            let mut first = String::new();
            push_str(&mut first, " (no clipboard tool found)");
            let mut second = String::new();
            second.push(' ');
            push_str(&mut second, command);
            lines.push(first);
            lines.push(second);
        },
        _ => {
            let mut line = String::new();
            push_str(&mut line, " yanked: ");
            push_str(&mut line, command);
            lines.push(line);
        },
    }
    assert(lines@.map_values(|s: String| s@) =~= report_of(!(result is Failure), command@));
    lines
}

} // verus!
