//! Reading the tail of the history log without reading the whole file: a
//! backwards scan, chunk by chunk, for the newline that starts the last
//! lines, and the split of the text read from there into lines.
use vstd::prelude::*;

use vstd::utf8::{encode_scalar, encode_utf8, has_width_1_encoding};

use crate::text::{chars_of, is_blank, string_of_range, trim_chars};

verus! {

/// How many bytes the scan reads at a time.
pub const CHUNK_SIZE: u64 = 8192;

/// The positions of the newlines in `buf`, counted from `base`, last first.
pub open spec fn newline_offsets(buf: Seq<u8>, base: int) -> Seq<u64>
    decreases buf.len(),
{
    if buf.len() == 0 {
        Seq::empty()
    } else {
        let last = buf.len() - 1;
        let before = newline_offsets(buf.drop_last(), base);
        if buf[last] == 10 {
            seq![(base + last) as u64] + before
        } else {
            before
        }
    }
}

proof fn lemma_newline_offsets_concat(a: Seq<u8>, b: Seq<u8>, base: int)
    ensures
        newline_offsets(a + b, base) == newline_offsets(b, base + a.len()) + newline_offsets(
            a,
            base,
        ),
    decreases b.len(),
{
    if b.len() == 0 {
        assert(a + b == a);
    } else {
        lemma_newline_offsets_concat(a, b.drop_last(), base);
        assert((a + b).drop_last() == a + b.drop_last());
        assert((a + b)[(a + b).len() - 1] == b[b.len() - 1]);
    }
}

proof fn lemma_newline_offsets_bounds(buf: Seq<u8>, base: int)
    requires
        0 <= base,
        base + buf.len() <= u64::MAX,
    ensures
        forall|k: int|
            0 <= k < newline_offsets(buf, base).len() ==> base <= #[trigger] newline_offsets(
                buf,
                base,
            )[k] < base + buf.len() && buf[newline_offsets(buf, base)[k] - base] == 10,
        forall|k1: int, k2: int|
            0 <= k1 < k2 < newline_offsets(buf, base).len() ==> #[trigger] newline_offsets(
                buf,
                base,
            )[k1] > #[trigger] newline_offsets(buf, base)[k2],
    decreases buf.len(),
{
    if buf.len() > 0 {
        let d = buf.drop_last();
        lemma_newline_offsets_bounds(d, base);
        let before = newline_offsets(d, base);
        let all = newline_offsets(buf, base);
        assert forall|k: int| 0 <= k < before.len() implies base <= #[trigger] before[k] < base
            + buf.len() - 1 && buf[before[k] - base] == 10 by {
            assert(d[before[k] - base] == 10);
        }
        if buf[buf.len() - 1] == 10 {
            assert forall|k: int| 0 <= k < all.len() implies base <= #[trigger] all[k] < base
                + buf.len() && buf[all[k] - base] == 10 by {
                if k > 0 {
                    assert(all[k] == before[k - 1]);
                }
            }
            assert forall|k1: int, k2: int| 0 <= k1 < k2 < all.len() implies #[trigger] all[k1]
                > #[trigger] all[k2] by {
                if k1 > 0 {
                    assert(all[k1] == before[k1 - 1]);
                }
                assert(all[k2] == before[k2 - 1]);
            }
        }
    }
}

/// The state of the backwards scan.
pub struct TailScanView {
    /// How many lines are wanted.
    pub count: usize,
    pub file_size: u64,
    /// The bytes from here to the end of the file have been scanned.
    pub position: u64,
    /// The newlines found so far, last first.
    pub newlines: Seq<u64>,
    pub finished: bool,
    /// The bytes scanned so far: those from `position` to the end of the file.
    pub seen: Seq<u8>,
}

/// A backwards scan of the history log for the start of its last lines.
pub struct TailScan {
    count: usize,
    file_size: u64,
    position: u64,
    newlines: Vec<u64>,
    finished: bool,
    last_is_newline: bool,
    seen: Ghost<Seq<u8>>,
}

impl View for TailScan {
    type V = TailScanView;

    closed spec fn view(&self) -> TailScanView {
        TailScanView {
            count: self.count,
            file_size: self.file_size,
            position: self.position,
            newlines: self.newlines@,
            finished: self.finished,
            seen: self.seen@,
        }
    }
}

/// Where the next chunk starts: `CHUNK_SIZE` bytes before `position`, or at 0.
pub open spec fn chunk_start(position: u64) -> u64 {
    if position >= CHUNK_SIZE {
        (position - CHUNK_SIZE) as u64
    } else {
        0
    }
}

/// The newlines that the scan has found are all those of the scanned bytes,
/// last first; the scan has stopped once it has more than `count + 1` of them
/// or has reached the start of the file.
pub open spec fn scan_valid(v: TailScanView) -> bool {
    &&& v.count < usize::MAX
    &&& v.position <= v.file_size
    &&& v.seen.len() == v.file_size - v.position
    &&& v.newlines == newline_offsets(v.seen, v.position as int)
    &&& v.finished <==> (v.file_size == 0 || v.newlines.len() > v.count + 1 || (v.position == 0
        && v.file_size > 0))
}

/// The number of newlines in `bytes`.
pub open spec fn newline_count(bytes: Seq<u8>) -> nat
    decreases bytes.len(),
{
    if bytes.len() == 0 {
        0
    } else {
        newline_count(bytes.drop_last()) + if bytes.last() == 10 {
            1nat
        } else {
            0nat
        }
    }
}

/// The number of lines in `bytes`: one per newline, and one more for text
/// after the last newline.
pub open spec fn line_count(bytes: Seq<u8>) -> nat {
    newline_count(bytes) + if bytes.len() > 0 && bytes.last() != 10 {
        1nat
    } else {
        0nat
    }
}

/// Where the lines found so far end, last first: at each newline, and at the
/// last byte of the file when the file does not end with a newline.
pub open spec fn line_ends(v: TailScanView) -> Seq<u64> {
    if v.seen.len() > 0 && v.seen.last() != 10 {
        seq![(v.file_size - 1) as u64] + v.newlines
    } else {
        v.newlines
    }
}

/// Where the tail of the last `count` lines starts: just after the end of
/// the `count + 1`-th line from the end when the scan found that many,
/// else at the start of the file.
pub open spec fn tail_start(v: TailScanView) -> u64 {
    if line_ends(v).len() > v.count {
        (line_ends(v)[v.count as int] + 1) as u64
    } else {
        0
    }
}

proof fn lemma_newline_count(buf: Seq<u8>, base: int)
    ensures
        newline_offsets(buf, base).len() == newline_count(buf),
    decreases buf.len(),
{
    if buf.len() > 0 {
        lemma_newline_count(buf.drop_last(), base);
    }
}

impl TailScan {
    #[verifier::type_invariant]
    spec fn valid(self) -> bool {
        &&& scan_valid(self@)
        &&& self@.seen.len() > 0 ==> (self.last_is_newline <==> self@.seen.last() == 10)
    }

    /// A scan of a file of `file_size` bytes for its last `count` lines; the
    /// scan of an empty file is finished at once.
    pub fn new(file_size: u64, count: usize) -> (scan: TailScan)
        requires
            count < usize::MAX,
        ensures
            scan@.count == count,
            scan@.file_size == file_size,
            scan@.position == file_size,
            scan@.newlines == Seq::<u64>::empty(),
            scan@.finished == (file_size == 0),
            scan@.seen == Seq::<u8>::empty(),
    {
        TailScan {
            count,
            file_size,
            position: file_size,
            newlines: Vec::new(),
            finished: file_size == 0,
            last_is_newline: false,
            seen: Ghost(Seq::empty()),
        }
    }

    /// The chunk to read next, as its start and its length; `None` once the
    /// scan is finished.
    pub fn next_read(&self) -> (res: Option<(u64, usize)>)
        ensures
            self@.finished ==> res is None,
            !self@.finished ==> res == Some(
                (chunk_start(self@.position), (self@.position - chunk_start(self@.position)) as usize),
            ),
    {
        if self.finished {
            None
        } else {
            let start = if self.position >= CHUNK_SIZE {
                self.position - CHUNK_SIZE
            } else {
                0
            };
            Some((start, (self.position - start) as usize))
        }
    }

    /// Takes in the chunk that `next_read` named: records its newlines, last
    /// first, and decides whether the scan is finished.
    pub fn absorb(&mut self, buffer: &[u8])
        requires
            !old(self)@.finished,
            buffer@.len() == old(self)@.position - chunk_start(old(self)@.position),
        ensures
            final(self)@.count == old(self)@.count,
            final(self)@.file_size == old(self)@.file_size,
            final(self)@.position == chunk_start(old(self)@.position),
            final(self)@.seen == buffer@ + old(self)@.seen,
            final(self)@.newlines == old(self)@.newlines + newline_offsets(
                buffer@,
                chunk_start(old(self)@.position) as int,
            ),
            final(self)@.finished == (final(self)@.newlines.len() > old(self)@.count + 1
                || final(self)@.position == 0),
    {
        proof {
            use_type_invariant(&*self);
        }
        let start = if self.position >= CHUNK_SIZE {
            self.position - CHUNK_SIZE
        } else {
            0
        };
        let mut newlines: Vec<u64> = self.newlines.clone();
        assert(newlines@ =~= self.newlines@);
        let ghost old_newlines = newlines@;
        let mut i: usize = buffer.len();
        while i > 0
            invariant
                i <= buffer@.len(),
                buffer@.len() + start <= u64::MAX,
                newlines@ == old_newlines + newline_offsets(
                    buffer@.subrange(i as int, buffer@.len() as int),
                    start + i,
                ),
            decreases i,
        {
            let ghost prev = newlines@;
            i -= 1;
            if buffer[i] == 10 {
                newlines.push(start + i as u64);
            }
            proof {
                let tail = buffer@.subrange(i + 1, buffer@.len() as int);
                let one = seq![buffer@[i as int]];
                assert(buffer@.subrange(i as int, buffer@.len() as int) == one + tail);
                lemma_newline_offsets_concat(one, tail, start + i);
                assert(one.drop_last() == Seq::<u8>::empty());
                assert(newline_offsets(Seq::<u8>::empty(), start + i) == Seq::<u64>::empty());
            }
        }
        assert(buffer@.subrange(0, buffer@.len() as int) == buffer@);
        proof {
            lemma_newline_offsets_concat(buffer@, self.seen@, start as int);
        }
        let finished = newlines.len() > self.count + 1 || start == 0;
        let ghost seen = buffer@ + self.seen@;
        let last_is_newline = if self.position == self.file_size && buffer.len() > 0 {
            buffer[buffer.len() - 1] == 10
        } else {
            self.last_is_newline
        };
        assert(seen.len() > 0 ==> seen.last() == if self.seen@.len() > 0 {
            self.seen@.last()
        } else {
            buffer@.last()
        });
        *self = TailScan {
            count: self.count,
            file_size: self.file_size,
            position: start,
            newlines,
            finished,
            last_is_newline,
            seen: Ghost(seen),
        };
    }

    /// Whether the scan is finished.
    pub fn is_finished(&self) -> (res: bool)
        ensures
            res == self@.finished,
    {
        self.finished
    }

    /// The byte at which the tail starts (see `tail_start`). Once the scan is
    /// finished, the bytes from there to the end hold exactly `count` lines
    /// and follow a newline (or start the file, or are empty), or else start
    /// the file and hold at most `count` lines.
    pub fn start_byte(&self) -> (res: u64)
        ensures
            res == tail_start(self@),
            self@.finished ==> res >= self@.position,
            self@.finished && res > 0 ==> line_count(self@.seen.skip(res - self@.position))
                == self@.count,
            self@.finished && res > 0 && res < self@.file_size ==> self@.seen[res - self@.position
                - 1] == 10,
            self@.finished && res == 0 ==> self@.position == 0 && line_count(self@.seen)
                <= self@.count,
    {
        proof {
            use_type_invariant(self);
            lemma_newline_offsets_bounds(self@.seen, self@.position as int);
            lemma_newline_count(self@.seen, self@.position as int);
        }
        let unterminated = self.position < self.file_size && !self.last_is_newline;
        // index, among the newlines, of the end of the `count + 1`-th line from the end
        let wanted: Option<usize> = if !unterminated {
            Some(self.count)
        } else if self.count > 0 {
            Some(self.count - 1)
        } else {
            None
        };
        match wanted {
            None => {
                proof {
                    let v = self@;
                    assert(line_ends(v)[0] == v.file_size - 1);
                    assert(v.seen.skip(v.file_size - v.position) == Seq::<u8>::empty());
                }
                self.file_size
            },
            Some(k) => {
                if self.newlines.len() > k {
                    let n = self.newlines[k];
                    proof {
                        let v = self@;
                        assert(line_ends(v)[v.count as int] == n);
                        self.lemma_tail_after_newline(k as int);
                    }
                    n + 1
                } else {
                    proof {
                        let v = self@;
                        if v.finished && v.file_size > 0 {
                            assert(v.position == 0);
                            assert(v.seen.skip(0) == v.seen);
                        }
                    }
                    0
                }
            },
        }
    }

    proof fn lemma_tail_after_newline(&self, k: int)
        requires
            scan_valid(self@),
            self@.seen.len() > 0 ==> (self.last_is_newline <==> self@.seen.last() == 10),
            0 <= k < self@.newlines.len(),
            k == if self@.seen.len() > 0 && self@.seen.last() != 10 {
                self@.count - 1
            } else {
                self@.count as int
            },
        ensures
            self@.newlines[k] >= self@.position,
            self@.newlines[k] < self@.file_size,
            self@.seen[self@.newlines[k] - self@.position] == 10,
            line_count(self@.seen.skip(self@.newlines[k] + 1 - self@.position)) == self@.count,
    {
        let v = self@;
        lemma_newline_offsets_bounds(v.seen, v.position as int);
        let n = v.newlines[k];
        let cut = n - v.position;
        let a = v.seen.take(cut + 1);
        let b = v.seen.skip(cut + 1);
        assert(a + b == v.seen);
        lemma_newline_offsets_concat(a, b, v.position as int);
        lemma_newline_offsets_bounds(a, v.position as int);
        lemma_newline_offsets_bounds(b, v.position + cut + 1);
        lemma_newline_count(b, v.position + cut + 1);
        let nb = newline_offsets(b, v.position + cut + 1);
        let na = newline_offsets(a, v.position as int);
        assert(v.newlines == nb + na);
        assert(a[cut] == 10);
        assert(na[0] == n);
        if nb.len() > k {
            assert(v.newlines[k] == nb[k]);
            assert(false);
        }
        if nb.len() < k {
            let j = k - nb.len();
            assert(v.newlines[k] == na[j]);
            assert(na[0] > na[j]);
            assert(false);
        }
        assert(nb.len() == k);
        if b.len() > 0 {
            assert(b.last() == v.seen.last());
        }
    }
}

/// A line without its line feed, and without a carriage return just before it.
pub open spec fn strip_line_end(line: Seq<char>) -> Seq<char> {
    if line.len() > 0 && line.last() == '\r' {
        line.drop_last()
    } else {
        line
    }
}

/// The text after the last line feed of `s`.
pub open spec fn pending_line(s: Seq<char>) -> Seq<char>
    decreases s.len(),
{
    if s.len() == 0 {
        s
    } else if s.last() == '\n' {
        Seq::empty()
    } else {
        pending_line(s.drop_last()).push(s.last())
    }
}

/// The lines of `s` that end with a line feed, without their line endings.
pub open spec fn ended_lines(s: Seq<char>) -> Seq<Seq<char>>
    decreases s.len(),
{
    if s.len() == 0 {
        Seq::empty()
    } else if s.last() == '\n' {
        ended_lines(s.drop_last()).push(strip_line_end(pending_line(s.drop_last())))
    } else {
        ended_lines(s.drop_last())
    }
}

/// The lines of `s`, as `str::lines` gives them: split at line feeds, line
/// endings left out, a last line kept when it has no line feed.
pub open spec fn lines_of(s: Seq<char>) -> Seq<Seq<char>> {
    if pending_line(s).len() > 0 {
        ended_lines(s).push(pending_line(s))
    } else {
        ended_lines(s)
    }
}

/// The lines of `lines` that are not blank, in order.
pub open spec fn non_blank(lines: Seq<Seq<char>>) -> Seq<Seq<char>>
    decreases lines.len(),
{
    if lines.len() == 0 {
        lines
    } else if is_blank(lines.last()) {
        non_blank(lines.drop_last())
    } else {
        non_blank(lines.drop_last()).push(lines.last())
    }
}

fn line_end(chars: &Vec<char>, lo: usize, hi: usize) -> (end: usize)
    requires
        lo <= hi <= chars@.len(),
    ensures
        lo <= end <= hi,
        chars@.subrange(lo as int, end as int) == strip_line_end(
            chars@.subrange(lo as int, hi as int),
        ),
{
    if hi > lo && chars[hi - 1] == '\r' {
        assert(chars@.subrange(lo as int, hi as int).drop_last() == chars@.subrange(
            lo as int,
            hi - 1,
        ));
        hi - 1
    } else {
        hi
    }
}

fn blank(chars: &Vec<char>, lo: usize, hi: usize) -> (res: bool)
    requires
        lo <= hi <= chars@.len(),
    ensures
        res == is_blank(chars@.subrange(lo as int, hi as int)),
{
    let mut piece: Vec<char> = Vec::new();
    let mut i = lo;
    while i < hi
        invariant
            lo <= i <= hi <= chars@.len(),
            piece@ == chars@.subrange(lo as int, i as int),
        decreases hi - i,
    {
        piece.push(chars[i]);
        i += 1;
        assert(chars@.subrange(lo as int, i as int) == chars@.subrange(lo as int, i - 1).push(
            chars@[i - 1],
        ));
    }
    let t = trim_chars(&piece);
    t.len() == 0
}

/// The lines of the text read from the tail, blank lines left out.
pub fn split_lines(content: &str) -> (lines: Vec<String>)
    ensures
        lines@.map_values(|l: String| l@) == non_blank(lines_of(content@)),
{
    let chars = chars_of(content);
    let mut lines: Vec<String> = Vec::new();
    let mut line_start: usize = 0;
    let mut i: usize = 0;
    while i < chars.len()
        invariant
            chars@ == content@,
            line_start <= i <= chars@.len(),
            chars@.subrange(line_start as int, i as int) == pending_line(chars@.take(i as int)),
            lines@.map_values(|l: String| l@) == non_blank(ended_lines(chars@.take(i as int))),
        decreases chars@.len() - i,
    {
        let ghost prefix = chars@.take(i as int);
        assert(chars@.take(i + 1).drop_last() == prefix);
        assert(chars@.take(i + 1).last() == chars@[i as int]);
        if chars[i] == '\n' {
            let ghost before = lines@;
            let ghost line = strip_line_end(pending_line(prefix));
            let end = line_end(&chars, line_start, i);
            let ghost ended = ended_lines(chars@.take(i + 1));
            assert(ended == ended_lines(prefix).push(line));
            assert(ended.drop_last() == ended_lines(prefix));
            if !blank(&chars, line_start, end) {
                let l = string_of_range(&chars, line_start, end);
                lines.push(l);
                assert(lines@.map_values(|l: String| l@) == before.map_values(|l: String| l@).push(
                    line,
                ));
            }
            line_start = i + 1;
            assert(chars@.subrange(line_start as int, i + 1) == Seq::<char>::empty());
        } else {
            assert(chars@.subrange(line_start as int, i + 1) == chars@.subrange(
                line_start as int,
                i as int,
            ).push(chars@[i as int]));
        }
        i += 1;
    }
    assert(chars@.take(chars@.len() as int) == chars@);
    let ghost ended = ended_lines(chars@);
    let ghost pending = pending_line(chars@);
    if line_start < chars.len() {
        let ghost before = lines@;
        assert(ended.push(pending).drop_last() == ended);
        assert(ended.push(pending).last() == pending);
        if !blank(&chars, line_start, chars.len()) {
            let l = string_of_range(&chars, line_start, chars.len());
            lines.push(l);
            assert(lines@.map_values(|l: String| l@) == before.map_values(|l: String| l@).push(
                pending_line(chars@),
            ));
        }
    }
    lines
}

/// The number of line feeds in `s`.
pub open spec fn char_newlines(s: Seq<char>) -> nat
    decreases s.len(),
{
    if s.len() == 0 {
        0
    } else {
        char_newlines(s.drop_last()) + if s.last() == '\n' {
            1nat
        } else {
            0nat
        }
    }
}

proof fn lemma_lines_of_len(s: Seq<char>)
    ensures
        ended_lines(s).len() == char_newlines(s),
        pending_line(s).len() > 0 <==> (s.len() > 0 && s.last() != '\n'),
    decreases s.len(),
{
    if s.len() > 0 {
        lemma_lines_of_len(s.drop_last());
    }
}

proof fn lemma_non_blank_len(lines: Seq<Seq<char>>)
    ensures
        non_blank(lines).len() <= lines.len(),
    decreases lines.len(),
{
    if lines.len() > 0 {
        lemma_non_blank_len(lines.drop_last());
    }
}

proof fn lemma_encode_utf8_concat(a: Seq<char>, b: Seq<char>)
    ensures
        encode_utf8(a + b) == encode_utf8(a) + encode_utf8(b),
    decreases a.len(),
{
    if a.len() == 0 {
        assert(a + b == b);
    } else {
        lemma_encode_utf8_concat(a.drop_first(), b);
        assert((a + b).drop_first() == a.drop_first() + b);
        assert((a + b)[0] == a[0]);
    }
}

proof fn lemma_newline_count_concat(x: Seq<u8>, y: Seq<u8>)
    ensures
        newline_count(x + y) == newline_count(x) + newline_count(y),
    decreases y.len(),
{
    if y.len() == 0 {
        assert(x + y == x);
    } else {
        lemma_newline_count_concat(x, y.drop_last());
        assert((x + y).drop_last() == x + y.drop_last());
        assert((x + y).last() == y.last());
    }
}

proof fn lemma_high_bytes(v: u32)
    ensures
        (0xC0u8 | ((v >> 6) & 0x1F) as u8) != 10u8,
        (0xE0u8 | ((v >> 12) & 0x0F) as u8) != 10u8,
        (0xF0u8 | ((v >> 18) & 0x7) as u8) != 10u8,
        (0x80u8 | (v & 0x3F) as u8) != 10u8,
        (0x80u8 | ((v >> 6) & 0x3F) as u8) != 10u8,
        (0x80u8 | ((v >> 12) & 0x3F) as u8) != 10u8,
        v <= 0x7f ==> (((v & 0x7F) as u8 == 10u8) <==> v == 10),
{
    assert((0xC0u8 | ((v >> 6) & 0x1F) as u8) != 10u8) by (bit_vector);
    assert((0xE0u8 | ((v >> 12) & 0x0F) as u8) != 10u8) by (bit_vector);
    assert((0xF0u8 | ((v >> 18) & 0x7) as u8) != 10u8) by (bit_vector);
    assert((0x80u8 | (v & 0x3F) as u8) != 10u8) by (bit_vector);
    assert((0x80u8 | ((v >> 6) & 0x3F) as u8) != 10u8) by (bit_vector);
    assert((0x80u8 | ((v >> 12) & 0x3F) as u8) != 10u8) by (bit_vector);
    assert(v <= 0x7f ==> (((v & 0x7F) as u8 == 10u8) <==> v == 10)) by (bit_vector);
}

proof fn lemma_encode_char(c: char)
    ensures
        encode_utf8(seq![c]).len() > 0,
        newline_count(encode_utf8(seq![c])) == if c == '\n' {
            1nat
        } else {
            0nat
        },
        encode_utf8(seq![c]).last() == 10 <==> c == '\n',
{
    let v = c as u32;
    assert(seq![c].drop_first() == Seq::<char>::empty());
    assert(seq![c][0] == c);
    assert(encode_utf8(Seq::<char>::empty()) == Seq::<u8>::empty());
    assert(encode_utf8(seq![c]) == encode_scalar(v) + Seq::<u8>::empty());
    assert(encode_utf8(seq![c]) == encode_scalar(v));
    lemma_high_bytes(v);
    assert(c == '\n' <==> v == 10);
    reveal_with_fuel(newline_count, 5);
    let e = encode_scalar(v);
    if has_width_1_encoding(v) {
        assert(e.drop_last() == Seq::<u8>::empty());
    } else {
        assert(forall|i: int| 0 <= i < e.len() ==> e[i] != 10);
        assert(e.len() <= 4);
        if e.len() == 2 {
            assert(e.drop_last().drop_last() == Seq::<u8>::empty());
        } else if e.len() == 3 {
            assert(e.drop_last().drop_last().drop_last() == Seq::<u8>::empty());
        } else {
            assert(e.drop_last().drop_last().drop_last().drop_last() == Seq::<u8>::empty());
        }
    }
}

proof fn lemma_encoded_lines(s: Seq<char>)
    ensures
        newline_count(encode_utf8(s)) == char_newlines(s),
        encode_utf8(s).len() > 0 <==> s.len() > 0,
        s.len() > 0 ==> (encode_utf8(s).last() == 10 <==> s.last() == '\n'),
    decreases s.len(),
{
    if s.len() > 0 {
        let d = s.drop_last();
        lemma_encoded_lines(d);
        lemma_encode_utf8_concat(d, seq![s.last()]);
        assert(d + seq![s.last()] == s);
        lemma_encode_char(s.last());
        lemma_newline_count_concat(encode_utf8(d), encode_utf8(seq![s.last()]));
    } else {
        assert(encode_utf8(s) == Seq::<u8>::empty());
    }
}

/// The text of a tail splits into no more lines than the tail holds: the
/// non-blank lines of `s` are at most `line_count` of its UTF-8 bytes.
pub proof fn lemma_split_lines_within_tail(s: Seq<char>)
    ensures
        non_blank(lines_of(s)).len() <= line_count(encode_utf8(s)),
{
    lemma_lines_of_len(s);
    lemma_non_blank_len(lines_of(s));
    lemma_encoded_lines(s);
}

} // verus!
