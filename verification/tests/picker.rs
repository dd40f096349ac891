use recall::clipboard::YankResult;
use recall::display::abbreviate_home;
use recall::picker::{
    can_truncate, empty_menu_text, menu_lines, picker_step, prompt_text, selection_report, start_state, truncate,
    DisplayEntry, Mode, PickerEffect, PickerState,
};

fn press(state: PickerState, keys: &[u8], count: usize) -> (PickerState, Vec<PickerEffect>, bool) {
    let mut state = state;
    let mut effects = Vec::new();
    for &key in keys {
        let step = picker_step(state, key, count);
        state = step.state;
        effects.extend(step.effects);
        if step.quit {
            return (state, effects, true);
        }
    }
    (state, effects, false)
}

#[test]
fn a_single_digit_selects_when_no_longer_number_fits() {
    let (_, effects, quit) = press(start_state(), b"3", 5);
    assert!(quit);
    assert_eq!(
        effects,
        vec![
            PickerEffect::Echo('3'),
            PickerEffect::NewLine,
            PickerEffect::Choose { index: 2, mode: Mode::Select },
        ]
    );
}

#[test]
fn two_digits_wait_for_the_second_or_enter() {
    let (state, effects, quit) = press(start_state(), b"1", 15);
    assert!(!quit);
    assert_eq!(state.digits, 1);
    assert_eq!(effects, vec![PickerEffect::Echo('1')]);
    let (_, effects, quit) = press(state, b"2", 15);
    assert!(quit);
    assert_eq!(effects[2], PickerEffect::Choose { index: 11, mode: Mode::Select });
    let (_, effects, quit) = press(state, b"\r", 15);
    assert!(quit);
    assert_eq!(effects, vec![PickerEffect::NewLine, PickerEffect::Choose { index: 0, mode: Mode::Select }]);
}

#[test]
fn numbers_off_the_menu_are_ignored() {
    let (state, effects, quit) = press(start_state(), b"0", 15);
    assert!(!quit && effects.is_empty() && state.digits == 0);
    let (state, effects, quit) = press(start_state(), b"9", 5);
    assert!(!quit && effects.is_empty() && state.digits == 0);
    let (state, effects, _) = press(start_state(), b"17", 15);
    assert_eq!(effects, vec![PickerEffect::Echo('1')]);
    assert_eq!(state.digits, 1);
}

#[test]
fn backspace_rubs_out_a_digit() {
    let (state, effects, _) = press(start_state(), b"1\x7f", 15);
    assert_eq!(state.digits, 0);
    assert_eq!(effects, vec![PickerEffect::Echo('1'), PickerEffect::Erase]);
    let (_, effects, _) = press(start_state(), b"\x08", 15);
    assert!(effects.is_empty());
}

#[test]
fn context_mode_shows_and_returns() {
    let (state, effects, quit) = press(start_state(), b"c2", 5);
    assert!(!quit);
    assert_eq!(state, start_state());
    assert_eq!(
        effects,
        vec![
            PickerEffect::Prompt(Mode::Context),
            PickerEffect::Echo('2'),
            PickerEffect::NewLine,
            PickerEffect::Choose { index: 1, mode: Mode::Context },
            PickerEffect::Prompt(Mode::Select),
        ]
    );
    let (state, effects, quit) = press(start_state(), b"cq", 5);
    assert!(!quit);
    assert_eq!(state.mode, Mode::Select);
    assert_eq!(effects.last(), Some(&PickerEffect::Prompt(Mode::Select)));
}

#[test]
fn quit_keys_and_empty_enter_end_the_picker() {
    for key in [b'q', b'Q', 0x1b, b'\r', b'\n'] {
        let (_, effects, quit) = press(start_state(), &[key], 5);
        assert!(quit);
        assert_eq!(effects, vec![PickerEffect::NewLine]);
    }
    let (_, effects, quit) = press(start_state(), b"x", 5);
    assert!(!quit && effects.is_empty());
}

#[test]
fn typed_number_stays_on_the_menu() {
    let mut state = start_state();
    for &key in b"1c2\x7f3q9\r" {
        let step = picker_step(state, key, 25);
        assert!(step.state.digits <= 25);
        if step.quit {
            break;
        }
        state = step.state;
    }
}

#[test]
fn truncate_cuts_by_bytes() {
    assert_eq!(truncate("hello", 10), "hello");
    assert_eq!(truncate("hello world", 6), "hello…");
    assert_eq!(truncate("hello", 1), "…");
    assert_eq!(truncate("hello", 0), "…");
    assert_eq!(truncate("héllo", 4), "hé…");
    assert!(!can_truncate("héllo", 3));
}

#[test]
fn menu_lines_lay_out_columns() {
    let home = Some("/home/u".to_string());
    let items = vec![
        DisplayEntry {
            command: "git status".to_string(),
            directory_display: abbreviate_home("/home/u/p", &home),
            timestamp_display: "13:45".to_string(),
            tail_index: 0,
        },
        DisplayEntry {
            command: "ls".to_string(),
            directory_display: "/tmp".to_string(),
            timestamp_display: "13:46".to_string(),
            tail_index: 1,
        },
    ];
    let lines = menu_lines(&items, Some(45)).unwrap();
    // number 1, directory 4, overhead 25, so 20 columns for commands
    assert_eq!(lines.len(), 4);
    assert_eq!(lines[0], "");
    assert_eq!(lines[1], format!(" 1) {:<20}  {:<4}  13:45", "git status", "~/p"));
    assert_eq!(lines[2], format!(" 2) {:<20}  {:<4}  13:46", "ls", "/tmp"));
    assert_eq!(lines[3], "");
    let wide = menu_lines(&items, None).unwrap();
    assert_eq!(wide[1], format!(" 1) {:<55}  {:<4}  13:45", "git status", "~/p"));
}

#[test]
fn menu_lines_refuse_a_cut_inside_a_character() {
    let items = vec![DisplayEntry {
        command: "ééééééééééé".to_string(),
        directory_display: "/".to_string(),
        timestamp_display: "t".to_string(),
        tail_index: 0,
    }];
    // 20 columns: the cut after 19 bytes falls inside the tenth `é`
    assert!(menu_lines(&items, Some(20)).is_none());
    assert!(menu_lines(&items, Some(200)).is_some());
}

#[test]
fn prompts_and_reports() {
    assert_eq!(prompt_text(Mode::Select), " pick (c=context, q=quit): ");
    assert_eq!(prompt_text(Mode::Context), " context for (q=back): ");
    assert_eq!(selection_report(&YankResult::Success, "ls"), vec![" yanked: ls"]);
    assert_eq!(selection_report(&YankResult::Osc52, "ls"), vec![" yanked: ls"]);
    assert_eq!(
        selection_report(&YankResult::Failure("hint".to_string()), "ls"),
        vec![" (no clipboard tool found)", " ls"]
    );
}

#[test]
fn an_empty_menu_says_no_results() {
    assert_eq!(empty_menu_text(&[]).unwrap(), "no results");
    let items = vec![DisplayEntry {
        command: "ls".to_string(),
        directory_display: "/".to_string(),
        timestamp_display: "t".to_string(),
        tail_index: 0,
    }];
    assert!(empty_menu_text(&items).is_none());
}
