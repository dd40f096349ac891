//! Copying a command to the clipboard: which clipboard tools to try in
//! which order, what to answer once one of them has worked or all have
//! failed, and the OSC 52 escape sequence that asks the terminal itself to
//! take the text.
use vstd::prelude::*;
use vstd::utf8::encode_utf8;

use crate::encoding::{base64_encode, base64_standard_encode, encodable_len};
use crate::text::push_str;

verus! {

/// How a yank ended.
#[derive(Debug)]
pub enum YankResult {
    /// A clipboard tool took the text.
    Success,
    /// The terminal was asked to take the text with an OSC 52 sequence.
    Osc52,
    /// Nothing took the text; the hint says what to install.
    Failure(String),
}

/// A yank result with its hint as a character sequence.
pub enum YankResultView {
    Success,
    Osc52,
    Failure(Seq<char>),
}

impl View for YankResult {
    type V = YankResultView;

    open spec fn view(&self) -> YankResultView {
        match self {
            YankResult::Success => YankResultView::Success,
            YankResult::Osc52 => YankResultView::Osc52,
            YankResult::Failure(hint) => YankResultView::Failure(hint@),
        }
    }
}

/// What the yank knows of the machine it runs on.
#[derive(Clone, Copy, Debug)]
pub struct ClipboardEnvironment {
    /// Running on macOS (where `pbcopy` is the tool).
    pub macos: bool,
    /// `WAYLAND_DISPLAY` is set.
    pub on_wayland: bool,
    /// `DISPLAY` is set.
    pub on_x11: bool,
}

/// A clipboard program and its arguments; the text goes to its input.
pub struct ClipboardTool {
    pub program: String,
    pub arguments: Vec<String>,
}

/// A clipboard tool as character sequences.
pub struct ClipboardToolView {
    pub program: Seq<char>,
    pub arguments: Seq<Seq<char>>,
}

impl View for ClipboardTool {
    type V = ClipboardToolView;

    open spec fn view(&self) -> ClipboardToolView {
        ClipboardToolView {
            program: self.program@,
            arguments: self.arguments@.map_values(|a: String| a@),
        }
    }
}

/// The tools to try, in order, and the hint to give when all of them and
/// OSC 52 fail.
pub struct YankPlan {
    pub tools: Vec<ClipboardTool>,
    pub failure_hint: String,
}

pub open spec fn tool_spec(program: Seq<char>, arguments: Seq<Seq<char>>) -> ClipboardToolView {
    ClipboardToolView { program, arguments }
}

/// The tools to try: `pbcopy` on macOS; elsewhere `wl-copy` under Wayland,
/// then `xclip` and `xsel` under X11.
pub open spec fn planned_tools(env: ClipboardEnvironment) -> Seq<ClipboardToolView> {
    if env.macos {
        seq![tool_spec("pbcopy"@, Seq::empty())]
    } else {
        (if env.on_wayland {
            seq![tool_spec("wl-copy"@, Seq::empty())]
        } else {
            Seq::empty()
        }) + (if env.on_x11 {
            seq![
                tool_spec("xclip"@, seq!["-selection"@, "clipboard"@]),
                tool_spec("xsel"@, seq!["--clipboard"@, "--input"@]),
            ]
        } else {
            Seq::empty()
        })
    }
}

/// The hint given when nothing took the text.
pub open spec fn planned_hint(env: ClipboardEnvironment) -> Seq<char> {
    if env.macos {
        "no clipboard tool available"@
    } else if env.on_wayland {
        "install wl-copy (wl-clipboard package)"@
    } else if env.on_x11 {
        "install xclip or xsel"@
    } else {
        "no display server detected"@
    }
}

fn owned(s: &str) -> (out: String)
    ensures
        out@ == s@,
{
    let mut out = String::new();
    push_str(&mut out, s);
    out
}

fn tool(program: &str, first: Option<(&str, &str)>) -> (t: ClipboardTool)
    ensures
        t@.program == program@,
        t@.arguments == match first {
            Some((a, b)) => seq![a@, b@],
            None => Seq::<Seq<char>>::empty(),
        },
{
    let mut arguments: Vec<String> = Vec::new();
    if let Some((a, b)) = first {
        arguments.push(owned(a));
        arguments.push(owned(b));
    }
    let t = ClipboardTool { program: owned(program), arguments };
    assert(t@.arguments =~= match first {
        Some((a, b)) => seq![a@, b@],
        None => Seq::<Seq<char>>::empty(),
    });
    t
}

/// The order in which the tools are tried: on macOS only `pbcopy`; elsewhere
/// `wl-copy` comes first whenever Wayland is there, whether X11 is there or
/// not, and `xclip` then `xsel` follow whenever X11 is there; nothing else is
/// tried.
pub proof fn lemma_plan_order(env: ClipboardEnvironment)
    ensures
        env.macos ==> planned_tools(env) == seq![tool_spec("pbcopy"@, Seq::empty())],
        !env.macos ==> planned_tools(env).len() == (if env.on_wayland { 1int } else { 0 }) + (
        if env.on_x11 {
            2int
        } else {
            0
        }),
        !env.macos && env.on_wayland ==> planned_tools(env)[0] == tool_spec("wl-copy"@, Seq::empty()),
        !env.macos && env.on_x11 ==> {
            let o = if env.on_wayland { 1int } else { 0 };
            &&& planned_tools(env)[o] == tool_spec("xclip"@, seq!["-selection"@, "clipboard"@])
            &&& planned_tools(env)[o + 1] == tool_spec("xsel"@, seq!["--clipboard"@, "--input"@])
        },
        !env.macos ==> planned_tools(env).take(if env.on_wayland { 1int } else { 0 }) == planned_tools(
            ClipboardEnvironment { on_x11: !env.on_x11, ..env },
        ).take(if env.on_wayland { 1int } else { 0 }),
{
    if !env.macos {
        let other = ClipboardEnvironment { on_x11: !env.on_x11, ..env };
        let w = if env.on_wayland { 1int } else { 0 };
        assert(planned_tools(env).take(w) =~= planned_tools(other).take(w));
    }
}

/// The tools to try for `env`, in order, and the hint for when all fail.
pub fn yank_plan(env: &ClipboardEnvironment) -> (plan: YankPlan)
    ensures
        plan.tools@.map_values(|t: ClipboardTool| t@) == planned_tools(*env),
        plan.failure_hint@ == planned_hint(*env),
        env.macos ==> plan.tools@.len() == 1 && plan.tools@[0]@ == tool_spec("pbcopy"@, Seq::empty()),
        !env.macos ==> plan.tools@.len() == (if env.on_wayland { 1int } else { 0 }) + (if env.on_x11 {
            2int
        } else {
            0
        }),
        !env.macos && env.on_wayland ==> plan.tools@[0]@ == tool_spec("wl-copy"@, Seq::empty())
            && plan.failure_hint@ == "install wl-copy (wl-clipboard package)"@,
        !env.macos && !env.on_wayland && env.on_x11 ==> plan.failure_hint@ == "install xclip or xsel"@,
        !env.macos && !env.on_wayland && !env.on_x11 ==> plan.tools@.len() == 0
            && plan.failure_hint@ == "no display server detected"@,
        !env.macos && env.on_x11 ==> {
            let o = if env.on_wayland { 1int } else { 0 };
            &&& plan.tools@[o]@ == tool_spec("xclip"@, seq!["-selection"@, "clipboard"@])
            &&& plan.tools@[o + 1]@ == tool_spec("xsel"@, seq!["--clipboard"@, "--input"@])
        },
{
    proof {
        lemma_plan_order(*env);
    }
    let mut tools: Vec<ClipboardTool> = Vec::new();
    if env.macos {
        let t = tool("pbcopy", None);
        tools.push(t);
        assert(tools@.map_values(|t: ClipboardTool| t@) =~= planned_tools(*env));
        return YankPlan { tools, failure_hint: owned("no clipboard tool available") };
    }
    if env.on_wayland {
        let t = tool("wl-copy", None);
        tools.push(t);
    }
    let ghost wayland_part = tools@.map_values(|t: ClipboardTool| t@);
    assert(wayland_part =~= if env.on_wayland {
        seq![tool_spec("wl-copy"@, Seq::empty())]
    } else {
        Seq::empty()
    });
    if env.on_x11 {
        let xclip = tool("xclip", Some(("-selection", "clipboard")));
        let xsel = tool("xsel", Some(("--clipboard", "--input")));
        tools.push(xclip);
        tools.push(xsel);
        assert(tools@.map_values(|t: ClipboardTool| t@) =~= wayland_part + seq![xclip@, xsel@]);
    } else {
        assert(tools@.map_values(|t: ClipboardTool| t@) =~= wayland_part + Seq::empty());
    }
    assert(tools@.map_values(|t: ClipboardTool| t@) =~= planned_tools(*env));
    let failure_hint = if env.on_wayland {
        owned("install wl-copy (wl-clipboard package)")
    } else if env.on_x11 {
        owned("install xclip or xsel")
    } else {
        owned("no display server detected")
    };
    YankPlan { tools, failure_hint }
}

/// What was tried last.
#[derive(Clone, Copy, Debug, PartialEq, Eq, Structural)]
pub enum YankAttempt {
    /// The tool at this index of the plan.
    Tool(usize),
    /// The OSC 52 sequence.
    Osc52,
}

/// What to do next.
pub enum YankAction {
    /// Run the tool at this index of the plan with the text as its input.
    RunTool(usize),
    /// Write the OSC 52 sequence of the text to the terminal.
    SendOsc52,
    /// The yank is over.
    Finish(YankResult),
}

/// A yank action with its result as a view.
pub enum YankActionView {
    RunTool(usize),
    SendOsc52,
    Finish(YankResultView),
}

impl View for YankAction {
    type V = YankActionView;

    open spec fn view(&self) -> YankActionView {
        match self {
            YankAction::RunTool(i) => YankActionView::RunTool(*i),
            YankAction::SendOsc52 => YankActionView::SendOsc52,
            YankAction::Finish(r) => YankActionView::Finish(r@),
        }
    }
}

/// The order of a yank: the tools one after the other until one succeeds,
/// then OSC 52 when none did, then failure with the plan's hint.
pub open spec fn yank_next_spec(
    tool_count: nat,
    hint: Seq<char>,
    last: Option<YankAttempt>,
    succeeded: bool,
) -> YankActionView {
    match last {
        None => if tool_count > 0 {
            YankActionView::RunTool(0)
        } else {
            YankActionView::SendOsc52
        },
        Some(YankAttempt::Tool(i)) => if succeeded {
            YankActionView::Finish(YankResultView::Success)
        } else if i + 1 < tool_count {
            YankActionView::RunTool((i + 1) as usize)
        } else {
            YankActionView::SendOsc52
        },
        Some(YankAttempt::Osc52) => if succeeded {
            YankActionView::Finish(YankResultView::Osc52)
        } else {
            YankActionView::Finish(YankResultView::Failure(hint))
        },
    }
}

/// The next step of a yank, given what was tried last (`None` at the start)
/// and whether it succeeded.
pub fn yank_next(plan: &YankPlan, last: Option<YankAttempt>, succeeded: bool) -> (action: YankAction)
    ensures
        action@ == yank_next_spec(plan.tools@.len(), plan.failure_hint@, last, succeeded),
{
    match last {
        None => if plan.tools.len() > 0 {
            YankAction::RunTool(0)
        } else {
            YankAction::SendOsc52
        },
        Some(YankAttempt::Tool(i)) => if succeeded {
            YankAction::Finish(YankResult::Success)
        } else if i < plan.tools.len() && i + 1 < plan.tools.len() {
            YankAction::RunTool(i + 1)
        } else {
            YankAction::SendOsc52
        },
        Some(YankAttempt::Osc52) => if succeeded {
            YankAction::Finish(YankResult::Osc52)
        } else {
            YankAction::Finish(YankResult::Failure(plan.failure_hint.clone()))
        },
    }
}

/// How a whole yank ends when tool `i` succeeds exactly when `results[i]`
/// and OSC 52 succeeds exactly when `osc52_ok`, starting at tool `from`.
pub open spec fn yank_outcome(
    results: Seq<bool>,
    osc52_ok: bool,
    hint: Seq<char>,
    from: nat,
) -> YankResultView
    decreases results.len() - from,
{
    if from >= results.len() {
        if osc52_ok {
            YankResultView::Osc52
        } else {
            YankResultView::Failure(hint)
        }
    } else if results[from as int] {
        YankResultView::Success
    } else {
        yank_outcome(results, osc52_ok, hint, from + 1)
    }
}

/// Following the steps of a yank from the start, with tool `i` succeeding
/// exactly when `results[i]` and OSC 52 exactly when `osc52_ok`, a yank ends
/// with `Success` when some tool succeeds (the first that does ends it),
/// else with `Osc52` when the terminal took the text, else with the plan's hint.
pub open spec fn yank_run(
    results: Seq<bool>,
    osc52_ok: bool,
    hint: Seq<char>,
    action: YankActionView,
    fuel: nat,
) -> Option<YankResultView>
    decreases fuel,
{
    if fuel == 0 {
        None
    } else {
        match action {
            YankActionView::Finish(r) => Some(r),
            YankActionView::RunTool(i) => yank_run(
                results,
                osc52_ok,
                hint,
                yank_next_spec(results.len(), hint, Some(YankAttempt::Tool(i)), results[i as int]),
                (fuel - 1) as nat,
            ),
            YankActionView::SendOsc52 => yank_run(
                results,
                osc52_ok,
                hint,
                yank_next_spec(results.len(), hint, Some(YankAttempt::Osc52), osc52_ok),
                (fuel - 1) as nat,
            ),
        }
    }
}

proof fn lemma_yank_run_from(results: Seq<bool>, osc52_ok: bool, hint: Seq<char>, i: nat)
    requires
        i < results.len(),
        results.len() <= usize::MAX,
    ensures
        yank_run(
            results,
            osc52_ok,
            hint,
            YankActionView::RunTool(i as usize),
            (results.len() - i + 2) as nat,
        ) == Some(yank_outcome(results, osc52_ok, hint, i)),
    decreases results.len() - i,
{
    reveal_with_fuel(yank_run, 4);
    if i + 1 < results.len() && !results[i as int] {
        lemma_yank_run_from(results, osc52_ok, hint, i + 1);
    } else if !results[i as int] {
        assert(yank_outcome(results, osc52_ok, hint, i + 1) == if osc52_ok {
            YankResultView::Osc52
        } else {
            YankResultView::Failure(hint)
        });
        let next = yank_next_spec(results.len(), hint, Some(YankAttempt::Osc52), osc52_ok);
        assert(yank_run(results, osc52_ok, hint, next, 1) == Some(
            yank_outcome(results, osc52_ok, hint, i + 1),
        ));
    }
}

/// A yank that follows `yank_next` from the start ends, after at most one
/// step per tool and two more, in `yank_outcome`: the first tool that
/// succeeds gives `Success`; when none does, OSC 52 gives `Osc52`; else the
/// plan's hint is the failure.
pub proof fn lemma_yank_ends_in_outcome(results: Seq<bool>, osc52_ok: bool, hint: Seq<char>)
    requires
        results.len() <= usize::MAX,
    ensures
        yank_run(
            results,
            osc52_ok,
            hint,
            yank_next_spec(results.len(), hint, None, false),
            results.len() + 2,
        ) == Some(yank_outcome(results, osc52_ok, hint, 0)),
{
    reveal_with_fuel(yank_run, 3);
    if results.len() > 0 {
        lemma_yank_run_from(results, osc52_ok, hint, 0);
    } else {
        let next = yank_next_spec(results.len(), hint, Some(YankAttempt::Osc52), osc52_ok);
        assert(yank_run(results, osc52_ok, hint, next, 1) == Some(
            yank_outcome(results, osc52_ok, hint, 0),
        ));
    }
}

/// The OSC 52 sequence that hands `encoded` (base64) to the terminal's
/// clipboard: `ESC ] 52 ; c ; encoded BEL`.
pub open spec fn osc52_framed(encoded: Seq<char>) -> Seq<char> {
    seq!['\x1b', ']', '5', '2', ';', 'c', ';'] + encoded + seq!['\x07']
}

/// Frames base64 text as an OSC 52 clipboard sequence.
pub fn osc52_frame(encoded: &str) -> (sequence: String)
    ensures
        sequence@ == osc52_framed(encoded@),
{
    let mut sequence = String::new();
    sequence.push('\x1b');
    sequence.push(']');
    sequence.push('5');
    sequence.push('2');
    sequence.push(';');
    sequence.push('c');
    sequence.push(';');
    push_str(&mut sequence, encoded);
    sequence.push('\x07');
    sequence
}

/// The OSC 52 sequence that hands `text` to the terminal's clipboard.
pub fn osc52_sequence(text: &str) -> (sequence: String)
    requires
        encodable_len(encode_utf8(text@).len()),
    ensures
        sequence@ == osc52_framed(base64_standard_encode(encode_utf8(text@))),
{
    let encoded = base64_encode(text.as_bytes());
    osc52_frame(encoded.as_str())
}

} // verus!
