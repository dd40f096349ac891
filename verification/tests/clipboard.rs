use recall::clipboard::{
    osc52_frame, osc52_sequence, yank_next, yank_plan, ClipboardEnvironment, YankAction,
    YankAttempt, YankResult,
};

fn programs(env: ClipboardEnvironment) -> Vec<String> {
    yank_plan(&env).tools.iter().map(|t| t.program.clone()).collect()
}

#[test]
fn plan_follows_the_display_server() {
    let mac = ClipboardEnvironment { macos: true, on_wayland: true, on_x11: true };
    assert_eq!(programs(mac), vec!["pbcopy"]);
    let both = ClipboardEnvironment { macos: false, on_wayland: true, on_x11: true };
    assert_eq!(programs(both), vec!["wl-copy", "xclip", "xsel"]);
    let x11 = ClipboardEnvironment { macos: false, on_wayland: false, on_x11: true };
    let plan = yank_plan(&x11);
    assert_eq!(plan.tools[0].arguments, vec!["-selection", "clipboard"]);
    assert_eq!(plan.tools[1].arguments, vec!["--clipboard", "--input"]);
    assert_eq!(plan.failure_hint, "install xclip or xsel");
    let none = ClipboardEnvironment { macos: false, on_wayland: false, on_x11: false };
    let plan = yank_plan(&none);
    assert!(plan.tools.is_empty());
    assert_eq!(plan.failure_hint, "no display server detected");
    let wayland = ClipboardEnvironment { macos: false, on_wayland: true, on_x11: false };
    assert_eq!(yank_plan(&wayland).failure_hint, "install wl-copy (wl-clipboard package)");
    assert_eq!(yank_plan(&mac).failure_hint, "no clipboard tool available");
}

fn run(env: ClipboardEnvironment, tool_results: &[bool], osc52_ok: bool) -> (YankResult, Vec<usize>) {
    let plan = yank_plan(&env);
    let mut tried = Vec::new();
    let mut action = yank_next(&plan, None, false);
    loop {
        match action {
            YankAction::RunTool(i) => {
                tried.push(i);
                action = yank_next(&plan, Some(YankAttempt::Tool(i)), tool_results[i]);
            }
            YankAction::SendOsc52 => {
                action = yank_next(&plan, Some(YankAttempt::Osc52), osc52_ok);
            }
            YankAction::Finish(result) => return (result, tried),
        }
    }
}

#[test]
fn yank_tries_tools_in_order_then_osc52() {
    let both = ClipboardEnvironment { macos: false, on_wayland: true, on_x11: true };
    let (result, tried) = run(both, &[false, true, true], false);
    assert!(matches!(result, YankResult::Success));
    assert_eq!(tried, vec![0, 1]);
    let both = ClipboardEnvironment { macos: false, on_wayland: true, on_x11: true };
    let (result, tried) = run(both, &[false, false, false], true);
    assert!(matches!(result, YankResult::Osc52));
    assert_eq!(tried, vec![0, 1, 2]);
    let none = ClipboardEnvironment { macos: false, on_wayland: false, on_x11: false };
    let (result, tried) = run(none, &[], false);
    assert!(tried.is_empty());
    match result {
        YankResult::Failure(hint) => assert_eq!(hint, "no display server detected"),
        _ => panic!("expected a failure"),
    }
}

#[test]
fn osc52_sequence_encodes_the_text() {
    assert_eq!(osc52_sequence("hi"), "\x1b]52;c;aGk=\x07");
    assert_eq!(osc52_sequence("héllo"), "\x1b]52;c;aMOpbGxv\x07");
    assert_eq!(osc52_sequence(""), "\x1b]52;c;\x07");
    assert_eq!(osc52_frame("abc"), "\x1b]52;c;abc\x07");
}
