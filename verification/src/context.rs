//! The context of a chosen command: the entries logged just before and
//! after it, one line each, the chosen one marked.
use vstd::prelude::*;

use crate::display::{abbreviate_home, abbreviated};
use crate::history::{option_view, views, HistoryEntry, HistoryEntryView};
use crate::text::{byte_len, pad_right, push_padded_right, push_str};

verus! {

/// Writes the home directory at the start of `path` as `~`.
pub fn abbreviate_directory(path: &str, home_dir: &Option<String>) -> (out: String)
    ensures
        out@ == abbreviated(path@, option_view(*home_dir)),
{
    abbreviate_home(path, home_dir)
}

/// Index of the first entry with tail index `t`, or `s.len()` when there is none.
pub open spec fn position_of(s: Seq<HistoryEntryView>, t: usize) -> nat
    decreases s.len(),
{
    if s.len() == 0 {
        0
    } else if s[0].tail_index == t {
        0
    } else {
        1 + position_of(s.drop_first(), t)
    }
}

proof fn lemma_position_of(s: Seq<HistoryEntryView>, t: usize, k: int)
    requires
        0 <= k <= s.len(),
        forall|i: int| 0 <= i < k ==> #[trigger] s[i].tail_index != t,
        k < s.len() ==> s[k].tail_index == t,
    ensures
        position_of(s, t) == k,
    decreases k,
{
    if k > 0 {
        assert forall|i: int| 0 <= i < k - 1 implies #[trigger] s.drop_first()[i].tail_index != t by {
            assert(s.drop_first()[i] == s[i + 1]);
        }
        lemma_position_of(s.drop_first(), t, k - 1);
    }
}

/// The first entry shown: `context_lines` before the chosen one, or the first.
pub open spec fn window_start(position: nat, context_lines: nat) -> nat {
    if position >= context_lines {
        (position - context_lines) as nat
    } else {
        0
    }
}

/// One past the last entry shown: `context_lines` after the chosen one, or the end.
pub open spec fn window_end(position: nat, context_lines: nat, len: nat) -> nat {
    if position + context_lines + 1 <= len {
        position + context_lines + 1
    } else {
        len
    }
}

/// The widest abbreviated directory among `w`, in bytes.
pub open spec fn directory_width(w: Seq<HistoryEntryView>, home_dir: Option<Seq<char>>) -> nat
    decreases w.len(),
{
    if w.len() == 0 {
        0
    } else {
        let before = directory_width(w.drop_last(), home_dir);
        let here = byte_len(abbreviated(w.last().directory, home_dir));
        if here > before {
            here
        } else {
            before
        }
    }
}

/// The line of one entry: a marker (`▸` on the chosen entry), its timestamp,
/// its directory padded to `width`, and its command.
pub open spec fn context_line(
    e: HistoryEntryView,
    target: usize,
    width: nat,
    home_dir: Option<Seq<char>>,
) -> Seq<char> {
    let marker = if e.tail_index == target {
        '▸'
    } else {
        ' '
    };
    seq![' ', ' ', marker, ' '] + e.timestamp + seq![' ', ' '] + pad_right(
        abbreviated(e.directory, home_dir),
        width,
    ) + seq![' ', ' '] + e.command
}

/// The lines that show the context of the entry with tail index `target`:
/// an empty line, one line for each entry of the window, an empty line;
/// nothing when no entry has that tail index.
pub open spec fn context_text(
    s: Seq<HistoryEntryView>,
    target: usize,
    context_lines: nat,
    home_dir: Option<Seq<char>>,
) -> Seq<Seq<char>> {
    let position = position_of(s, target);
    if position >= s.len() {
        Seq::empty()
    } else {
        let window = s.subrange(
            window_start(position, context_lines) as int,
            window_end(position, context_lines, s.len()) as int,
        );
        let width = directory_width(window, home_dir);
        seq![Seq::<char>::empty()] + Seq::new(
            window.len(),
            |k: int| context_line(window[k], target, width, home_dir),
        ) + seq![Seq::<char>::empty()]
    }
}

proof fn lemma_directory_width_is_widest(w: Seq<HistoryEntryView>, home_dir: Option<Seq<char>>)
    ensures
        forall|k: int|
            0 <= k < w.len() ==> byte_len(abbreviated(#[trigger] w[k].directory, home_dir))
                <= directory_width(w, home_dir),
        w.len() > 0 ==> exists|k: int|
            0 <= k < w.len() && byte_len(abbreviated(#[trigger] w[k].directory, home_dir))
                == directory_width(w, home_dir),
        w.len() == 0 ==> directory_width(w, home_dir) == 0,
    decreases w.len(),
{
    if w.len() > 0 {
        let d = w.drop_last();
        lemma_directory_width_is_widest(d, home_dir);
        assert forall|k: int| 0 <= k < d.len() implies #[trigger] w[k] == d[k] by {}
        if d.len() > 0 {
            let k = choose|k: int|
                0 <= k < d.len() && byte_len(abbreviated(#[trigger] d[k].directory, home_dir))
                    == directory_width(d, home_dir);
            assert(w[k] == d[k]);
        }
        let last = w.len() - 1;
        assert(w[last] == w.last());
    }
}

/// With `p` the position of the first entry whose tail index is `target`,
/// the text is an empty line, then one line for each of the
/// `min(p, context_lines)` entries before it, for the entry itself (marked)
/// and for the `min(len - p - 1, context_lines)` entries after it, taken in
/// order from the entries, then an empty line. The directories are padded
/// to `width`, the widest directory shown (abbreviated, in bytes). With no
/// entry of tail index `target`, the text is empty.
pub proof fn lemma_context_window(
    s: Seq<HistoryEntryView>,
    target: usize,
    context_lines: nat,
    home_dir: Option<Seq<char>>,
    p: int,
) -> (width: nat)
    requires
        0 <= p < s.len(),
        s[p].tail_index == target,
        forall|i: int| 0 <= i < p ==> #[trigger] s[i].tail_index != target,
    ensures
        ({
            let r = context_text(s, target, context_lines, home_dir);
            let before = if p < context_lines { p } else { context_lines as int };
            let after = if s.len() - p - 1 < context_lines { s.len() - p - 1 } else { context_lines as int };
            &&& r.len() == before + after + 3
            &&& r[0] == Seq::<char>::empty()
            &&& r[r.len() - 1] == Seq::<char>::empty()
            &&& width == directory_width(s.subrange(p - before, p + after + 1), home_dir)
            &&& forall|k: int|
                0 <= k < before + after + 1 ==> #[trigger] r[k + 1] == context_line(
                    s[p - before + k],
                    target,
                    width,
                    home_dir,
                )
            &&& forall|k: int|
                p - before <= k <= p + after ==> byte_len(abbreviated(#[trigger] s[k].directory, home_dir))
                    <= width
            &&& exists|k: int|
                p - before <= k <= p + after && byte_len(abbreviated(#[trigger] s[k].directory, home_dir))
                    == width
        }),
{
    lemma_position_of(s, target, p);
    let c = context_lines;
    let before = if p < c { p } else { c as int };
    let after = if s.len() - p - 1 < c { s.len() - p - 1 } else { c as int };
    let start = window_start(p as nat, c);
    let end = window_end(p as nat, c, s.len());
    assert(start == p - before);
    assert(end == p + after + 1);
    let window = s.subrange(start as int, end as int);
    let width = directory_width(window, home_dir);
    lemma_directory_width_is_widest(window, home_dir);
    let r = context_text(s, target, context_lines, home_dir);
    let middle = Seq::new(window.len(), |k: int| context_line(window[k], target, width, home_dir));
    assert(r == seq![Seq::<char>::empty()] + middle + seq![Seq::<char>::empty()]);
    assert forall|k: int| 0 <= k < before + after + 1 implies #[trigger] r[k + 1] == context_line(
        s[p - before + k],
        target,
        width,
        home_dir,
    ) by {
        assert(window[k] == s[p - before + k]);
        assert(r[k + 1] == middle[k]);
    }
    assert forall|k: int| p - before <= k <= p + after implies byte_len(
        abbreviated(#[trigger] s[k].directory, home_dir),
    ) <= width by {
        assert(window[k - (p - before)] == s[k]);
    }
    let j = choose|j: int|
        0 <= j < window.len() && byte_len(abbreviated(#[trigger] window[j].directory, home_dir))
            == width;
    assert(window[j] == s[p - before + j]);
    width
}

/// With no entry of tail index `target`, there is nothing to show.
pub proof fn lemma_context_of_missing_target(
    s: Seq<HistoryEntryView>,
    target: usize,
    context_lines: nat,
    home_dir: Option<Seq<char>>,
)
    requires
        forall|i: int| 0 <= i < s.len() ==> #[trigger] s[i].tail_index != target,
    ensures
        context_text(s, target, context_lines, home_dir) == Seq::<Seq<char>>::empty(),
{
    lemma_position_of(s, target, s.len() as int);
}

fn find_position(all_entries: &[HistoryEntry], target: usize) -> (position: usize)
    ensures
        position == position_of(views(all_entries@), target),
        position <= all_entries@.len(),
{
    let mut i: usize = 0;
    while i < all_entries.len() && all_entries[i].tail_index != target
        invariant
            i <= all_entries@.len(),
            forall|k: int| 0 <= k < i ==> #[trigger] views(all_entries@)[k].tail_index != target,
        decreases all_entries@.len() - i,
    {
        assert(views(all_entries@)[i as int] == all_entries@[i as int]@);
        i += 1;
    }
    proof {
        lemma_position_of(views(all_entries@), target, i as int);
    }
    i
}

fn context_line_of(e: &HistoryEntry, target: usize, width: usize, home_dir: &Option<String>) -> (line: String)
    ensures
        line@ == context_line(e@, target, width as nat, option_view(*home_dir)),
{
    let mut line = String::new();
    line.push(' ');
    line.push(' ');
    if e.tail_index == target {
        line.push('▸');
    } else {
        line.push(' ');
    }
    line.push(' ');
    push_str(&mut line, e.timestamp.as_str());
    line.push(' ');
    line.push(' ');
    let directory = abbreviate_directory(e.directory.as_str(), home_dir);
    push_padded_right(&mut line, directory.as_str(), width);
    line.push(' ');
    line.push(' ');
    push_str(&mut line, e.command.as_str());
    line
}

/// The end of the window, `position + context_lines + 1`, does not fit in a
/// `usize` (the computation overflows there).
pub open spec fn window_overflows(s: Seq<HistoryEntryView>, target: usize, context_lines: nat) -> bool {
    let position = position_of(s, target);
    position < s.len() && position + context_lines + 1 > usize::MAX
}

proof fn lemma_show_lines_window(
    all_entries: &[HistoryEntry],
    target_tail_index: usize,
    context_lines: usize,
    home_dir: &Option<String>,
)
    ensures
        forall|p: int|
            #![trigger all_entries@[p]]
            0 <= p < all_entries@.len() && all_entries@[p].tail_index == target_tail_index && (forall|i: int|
                0 <= i < p ==> #[trigger] all_entries@[i].tail_index != target_tail_index) ==> {
                let r = context_text(views(all_entries@), target_tail_index, context_lines as nat, option_view(*home_dir));
                let before = if p < context_lines { p } else { context_lines as int };
                let after = if all_entries@.len() - p - 1 < context_lines {
                    all_entries@.len() - p - 1
                } else {
                    context_lines as int
                };
                &&& r.len() == before + after + 3
                &&& r[0] == Seq::<char>::empty()
                &&& r[r.len() - 1] == Seq::<char>::empty()
                &&& forall|k: int|
                    0 <= k < before + after + 1 ==> #[trigger] r[k + 1] == context_line(
                        all_entries@[p - before + k]@,
                        target_tail_index,
                        directory_width(
                            views(all_entries@).subrange(p - before, p + after + 1),
                            option_view(*home_dir),
                        ),
                        option_view(*home_dir),
                    )
            },
        (forall|i: int| 0 <= i < all_entries@.len() ==> #[trigger] all_entries@[i].tail_index != target_tail_index)
            ==> context_text(views(all_entries@), target_tail_index, context_lines as nat, option_view(*home_dir)).len() == 0,
{
    let s = views(all_entries@);
    let home = option_view(*home_dir);
    assert forall|p: int|
        #![trigger all_entries@[p]]
        0 <= p < all_entries@.len() && all_entries@[p].tail_index == target_tail_index && (forall|i: int|
            0 <= i < p ==> #[trigger] all_entries@[i].tail_index != target_tail_index) implies {
            let r = context_text(s, target_tail_index, context_lines as nat, home);
            let before = if p < context_lines { p } else { context_lines as int };
            let after = if all_entries@.len() - p - 1 < context_lines {
                all_entries@.len() - p - 1
            } else {
                context_lines as int
            };
            &&& r.len() == before + after + 3
            &&& r[0] == Seq::<char>::empty()
            &&& r[r.len() - 1] == Seq::<char>::empty()
            &&& forall|k: int|
                0 <= k < before + after + 1 ==> #[trigger] r[k + 1] == context_line(
                    all_entries@[p - before + k]@,
                    target_tail_index,
                    directory_width(s.subrange(p - before, p + after + 1), home),
                    home,
                )
        } by {
        assert forall|i: int| 0 <= i < p implies #[trigger] s[i].tail_index != target_tail_index by {
            assert(s[i] == all_entries@[i]@);
        }
        assert(s[p] == all_entries@[p]@);
        let width = lemma_context_window(s, target_tail_index, context_lines as nat, home, p);
        let r = context_text(s, target_tail_index, context_lines as nat, home);
        let before = if p < context_lines { p } else { context_lines as int };
        let after = if all_entries@.len() - p - 1 < context_lines {
            all_entries@.len() - p - 1
        } else {
            context_lines as int
        };
        assert forall|k: int| 0 <= k < before + after + 1 implies #[trigger] r[k + 1] == context_line(
            all_entries@[p - before + k]@,
            target_tail_index,
            width,
            home,
        ) by {
            assert(s[p - before + k] == all_entries@[p - before + k]@);
        }
    }
    if forall|i: int| 0 <= i < all_entries@.len() ==> #[trigger] all_entries@[i].tail_index != target_tail_index {
        assert forall|i: int| 0 <= i < s.len() implies #[trigger] s[i].tail_index != target_tail_index by {
            assert(s[i] == all_entries@[i]@);
        }
        lemma_context_of_missing_target(s, target_tail_index, context_lines as nat, home);
    }
}

/// The text that shows the entries around the one with tail index
/// `target_tail_index`: up to `context_lines` entries on each side. `None`
/// when the end of the window does not fit in a `usize`.
pub fn show_lines(
    all_entries: &[HistoryEntry],
    target_tail_index: usize,
    context_lines: usize,
    home_dir: &Option<String>,
) -> (lines: Option<Vec<String>>)
    ensures
        lines is None <==> window_overflows(
            views(all_entries@),
            target_tail_index,
            context_lines as nat,
        ),
        lines matches Some(l) ==> l@.map_values(|l: String| l@) == context_text(
            views(all_entries@),
            target_tail_index,
            context_lines as nat,
            option_view(*home_dir),
        ),
        forall|p: int|
            #![trigger all_entries@[p]]
            0 <= p < all_entries@.len() && all_entries@[p].tail_index == target_tail_index && (forall|i: int|
                0 <= i < p ==> #[trigger] all_entries@[i].tail_index != target_tail_index) ==> {
                let before = if p < context_lines { p } else { context_lines as int };
                let after = if all_entries@.len() - p - 1 < context_lines {
                    all_entries@.len() - p - 1
                } else {
                    context_lines as int
                };
                lines matches Some(l) ==> {
                    &&& l@.len() == before + after + 3
                    &&& l@[0]@ == Seq::<char>::empty()
                    &&& l@[l@.len() - 1]@ == Seq::<char>::empty()
                    &&& forall|k: int|
                        0 <= k < before + after + 1 ==> #[trigger] l@[k + 1]@ == context_line(
                            all_entries@[p - before + k]@,
                            target_tail_index,
                            directory_width(
                                views(all_entries@).subrange(p - before, p + after + 1),
                                option_view(*home_dir),
                            ),
                            option_view(*home_dir),
                        )
                }
            },
        (forall|i: int| 0 <= i < all_entries@.len() ==> #[trigger] all_entries@[i].tail_index != target_tail_index)
            ==> (lines matches Some(l) && l@.len() == 0),
{
    proof {
        lemma_show_lines_window(all_entries, target_tail_index, context_lines, home_dir);
    }
    let ghost s = views(all_entries@);
    let ghost home = option_view(*home_dir);
    let mut lines: Vec<String> = Vec::new();
    let position = find_position(all_entries, target_tail_index);
    if position >= all_entries.len() {
        assert(lines@.map_values(|l: String| l@) =~= Seq::<Seq<char>>::empty());
        return Some(lines);
    }
    if context_lines > usize::MAX - 1 - position {
        return None;
    }
    let start = if position >= context_lines {
        position - context_lines
    } else {
        0
    };
    let end = if context_lines < all_entries.len() - position {
        position + context_lines + 1
    } else {
        all_entries.len()
    };
    let ghost window = s.subrange(start as int, end as int);
    let mut width: usize = 0;
    let mut i = start;
    while i < end
        invariant
            s == views(all_entries@),
            start <= i <= end <= all_entries@.len(),
            window == s.subrange(start as int, end as int),
            width == directory_width(window.take(i - start), home),
            home == option_view(*home_dir),
        decreases end - i,
    {
        let directory = abbreviate_directory(all_entries[i].directory.as_str(), home_dir);
        let here = directory.as_str().as_bytes().len();
        assert(window.take(i + 1 - start).drop_last() == window.take(i - start));
        assert(window.take(i + 1 - start).last() == all_entries@[i as int]@);
        if here > width {
            width = here;
        }
        i += 1;
    }
    assert(window.take(end - start) == window);
    lines.push(String::new());
    let mut i = start;
    while i < end
        invariant
            s == views(all_entries@),
            start <= i <= end <= all_entries@.len(),
            window == s.subrange(start as int, end as int),
            width == directory_width(window, home),
            home == option_view(*home_dir),
            lines@.len() == i - start + 1,
            lines@[0]@ == Seq::<char>::empty(),
            forall|k: int|
                0 <= k < i - start ==> #[trigger] lines@[k + 1]@ == context_line(
                    window[k],
                    target_tail_index,
                    width as nat,
                    home,
                ),
        decreases end - i,
    {
        let line = context_line_of(&all_entries[i], target_tail_index, width, home_dir);
        assert(window[i - start] == all_entries@[i as int]@);
        lines.push(line);
        i += 1;
    }
    lines.push(String::new());
    proof {
        assert(start == window_start(position as nat, context_lines as nat));
        assert(end == window_end(position as nat, context_lines as nat, s.len()));
        let expected = context_text(s, target_tail_index, context_lines as nat, home);
        let middle = Seq::new(
            window.len(),
            |k: int| context_line(window[k], target_tail_index, width as nat, home),
        );
        assert(expected == seq![Seq::<char>::empty()] + middle + seq![Seq::<char>::empty()]);
        let got = lines@.map_values(|l: String| l@);
        assert(got.len() == expected.len());
        assert forall|k: int| 0 <= k < got.len() implies got[k] == expected[k] by {
            if k == 0 {
            } else if k < got.len() - 1 {
                assert(lines@[(k - 1) + 1]@ == middle[k - 1]);
            }
        }
        assert(got =~= expected);
        assert forall|k: int| 0 <= k < lines@.len() implies #[trigger] lines@[k]@ == expected[k] by {
            assert(got[k] == lines@[k]@);
        }
    }
    Some(lines)
}

} // verus!
