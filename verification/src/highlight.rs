use vstd::prelude::*;
use vstd::string::StringSliceAdditionalSpecFns;

use crate::chars::{chars_eq, chars_of, string_from_chars};
use crate::lines::NEWLINE;
use crate::numbering::{line_number_width, number_width, text_lines};
use crate::stream::STREAM_OUTPUT_FLUSH_BYTES;
use crate::style::DecorationConfig;
use crate::text::{count_of, free_of, lemma_split_lines_step, lemma_split_lines_tail};

verus! {

broadcast use vstd::string::group_string_axioms;

/// The theme key that syntastica numbers `idx` (`THEME_KEYS[idx]`), if any.
pub uninterp spec fn theme_key_at(idx: nat) -> Option<Seq<char>>;

/// Looks up entry `idx` of syntastica's `THEME_KEYS`.
#[verifier::external_body]
fn theme_key(idx: usize) -> (r: Option<&'static str>)
    ensures
        r matches Some(k) ==> theme_key_at(idx as nat) == Some(k@),
        r is None ==> theme_key_at(idx as nat) is None,
{
    syntastica::theme::THEME_KEYS.get(idx).copied()
}

/// The style key in force under `stack`: the key of its innermost highlight,
/// unless that key is missing or is `none`.
pub open spec fn style_key_spec(stack: Seq<usize>) -> Option<Seq<char>> {
    if stack.len() == 0 {
        None
    } else {
        match theme_key_at(stack.last() as nat) {
            Some(k) => if k == "none"@ {
                None
            } else {
                Some(k)
            },
            None => None,
        }
    }
}

/// The style key for the innermost open highlight.
pub fn current_style_key(style_stack: &[usize]) -> (r: Option<&'static str>)
    ensures
        r matches Some(k) ==> style_key_spec(style_stack@) == Some(k@),
        r is None ==> style_key_spec(style_stack@) is None,
{
    if style_stack.len() == 0 {
        return None;
    }
    let idx = style_stack[style_stack.len() - 1];
    match theme_key(idx) {
        Some(key) => {
            if chars_eq(&chars_of(key), &chars_of("none")) {
                None
            } else {
                Some(key)
            }
        },
        None => None,
    }
}

/// Number of lines the highlighter produces for `text`: one more than its
/// newlines (saturating).
pub fn highlight_line_count(text: &str) -> (n: usize)
    ensures
        n == (if count_of(text.spec_bytes(), NEWLINE) + 1 <= usize::MAX {
            count_of(text.spec_bytes(), NEWLINE) + 1
        } else {
            usize::MAX as nat
        }),
{
    let bytes = text.as_bytes();
    let mut count: usize = 0;
    let mut i: usize = 0;
    while i < bytes.len()
        invariant
            i <= bytes@.len(),
            bytes@ == text.spec_bytes(),
            count == count_of(bytes@.take(i as int), NEWLINE),
            count <= i,
        decreases bytes@.len() - i,
    {
        assert(bytes@.take(i + 1).drop_last() =~= bytes@.take(i as int));
        if bytes[i] == NEWLINE {
            count = count + 1;
        }
        i = i + 1;
    }
    assert(bytes@.take(bytes@.len() as int) =~= bytes@);
    count.saturating_add(1)
}

/// A line of a highlighted piece as `str::lines` gives it (without its line
/// feed, nor a carriage return before that line feed), and whether a line
/// break follows it.
#[derive(Debug)]
pub struct SourceLine {
    pub text: String,
    pub newline_after: bool,
}

/// The text of line `l` without its line ending (`\n` or `\r\n`).
pub open spec fn line_text(l: Seq<char>) -> Seq<char> {
    if l.len() > 0 && l.last() == '\n' {
        let m = l.drop_last();
        if m.len() > 0 && m.last() == '\r' {
            m.drop_last()
        } else {
            m
        }
    } else {
        l
    }
}

/// `r` describes the lines `ls`, one for one.
pub open spec fn describes_lines(r: Seq<SourceLine>, ls: Seq<Seq<char>>) -> bool {
    &&& r.len() == ls.len()
    &&& forall|k: int|
        0 <= k < r.len() ==> #[trigger] r[k].text@ == line_text(ls[k]) && r[k].newline_after == (
        ls[k].last() == '\n')
}

proof fn lemma_describes_push(r: Seq<SourceLine>, ls: Seq<Seq<char>>, x: SourceLine, l: Seq<char>)
    requires
        describes_lines(r, ls),
        x.text@ == line_text(l),
        x.newline_after == (l.last() == '\n'),
    ensures
        describes_lines(r.push(x), ls.push(l)),
{
    assert forall|k: int| 0 <= k < r.len() + 1 implies #[trigger] r.push(x)[k].text@ == line_text(
        ls.push(l)[k],
    ) && r.push(x)[k].newline_after == (ls.push(l)[k].last() == '\n') by {
        if k < r.len() {
            assert(r.push(x)[k] == r[k]);
            assert(ls.push(l)[k] == ls[k]);
            assert(r[k].text@ == line_text(ls[k]));
        } else {
            assert(r.push(x)[k] == x);
            assert(ls.push(l)[k] == l);
        }
    }
}

/// The lines of a highlighted piece of text, each with whether a line break
/// follows it.
pub fn source_lines(source: &str) -> (r: Vec<SourceLine>)
    ensures
        describes_lines(r@, text_lines(source@)),
{
    let v = chars_of(source);
    let mut r: Vec<SourceLine> = Vec::new();
    let mut start: usize = 0;
    let mut i: usize = 0;
    while i < v.len()
        invariant
            start <= i <= v@.len(),
            v@ == source@,
            start == 0 || v@[start - 1] == '\n',
            free_of(v@, '\n', start as int, i as int),
            describes_lines(r@, text_lines(v@.take(start as int))),
        decreases v@.len() - i,
    {
        if v[i] == '\n' {
            proof {
                lemma_split_lines_step(v@, '\n', start as int, i as int);
            }
            let ghost l = v@.subrange(start as int, i + 1);
            let end = if i > start && v[i - 1] == '\r' {
                i - 1
            } else {
                i
            };
            let text = string_from_chars(&crate::chars::copy_range(&v, start, end));
            proof {
                assert(l.drop_last() =~= v@.subrange(start as int, i as int));
                if i > start && v@[i - 1] == '\r' {
                    assert(l.drop_last().drop_last() =~= v@.subrange(start as int, i - 1));
                }
                assert(text@ == line_text(l));
                assert(l.last() == '\n');
            }
            let line = SourceLine { text, newline_after: true };
            proof {
                lemma_describes_push(r@, text_lines(v@.take(start as int)), line, l);
            }
            r.push(line);
            start = i + 1;
        }
        i = i + 1;
    }
    proof {
        lemma_split_lines_tail(v@, '\n', start as int);
    }
    if start < v.len() {
        let ghost l = v@.skip(start as int);
        let text = string_from_chars(&crate::chars::copy_range(&v, start, v.len()));
        proof {
            assert(v@.subrange(start as int, v@.len() as int) =~= l);
            assert(l.last() == v@[v@.len() - 1]);
            assert(l.last() != '\n');
        }
        let line = SourceLine { text, newline_after: false };
        proof {
            lemma_describes_push(r@, text_lines(v@.take(start as int)), line, l);
        }
        r.push(line);
    }
    r
}

} // verus!

verus! {

/// One step of writing highlighted output, in the order the steps are taken.
#[derive(Clone, Copy, Debug, PartialEq, Eq)]
pub enum LineAction {
    /// Write the rendered piece of line text.
    Piece,
    /// Write out the buffer when nothing has been written out yet and it
    /// holds at least `STREAM_OUTPUT_FLUSH_BYTES` (decided by
    /// `LineTracker::take_visible_flush`).
    EarlyFlush,
    /// Write the current line, with its decorations, from the pieces
    /// gathered for it.
    DecoratedLine,
    /// Write the line-feed marker.
    LfMarker,
    /// Write the line break.
    Newline,
    /// Write out everything buffered.
    FlushAll,
    /// Move on to the next numbered line (`LineTracker::advance_line`).
    NextLine,
}

/// The steps for one piece of line text: without decorations the piece is
/// written at once (and may be written out early); with decorations it is
/// gathered and the whole line is written at its line break. Every line
/// break is preceded by the marker when unprintable characters are shown,
/// and followed by writing out everything buffered.
pub open spec fn piece_actions(newline_after: bool, show_all: bool, decorated: bool) -> Seq<
    LineAction,
> {
    let start = if decorated {
        Seq::<LineAction>::empty()
    } else {
        seq![LineAction::Piece, LineAction::EarlyFlush]
    };
    if !newline_after {
        start
    } else {
        let line = if decorated {
            seq![LineAction::DecoratedLine]
        } else {
            Seq::<LineAction>::empty()
        };
        let marker = if show_all {
            seq![LineAction::LfMarker]
        } else {
            Seq::<LineAction>::empty()
        };
        let next = if decorated {
            seq![LineAction::NextLine]
        } else {
            Seq::<LineAction>::empty()
        };
        start + line + marker + seq![LineAction::Newline, LineAction::FlushAll] + next
    }
}

/// The steps after the last piece: with decorations the last line is written
/// even when it is empty; it ends with no line break, so it gets no marker.
pub open spec fn final_actions(decorated: bool) -> Seq<LineAction> {
    if decorated {
        seq![LineAction::DecoratedLine]
    } else {
        Seq::<LineAction>::empty()
    }
}

/// The state kept while highlighted output is written line by line: the
/// stack of open highlights, whether anything has been written out yet,
/// and the number and index of the current line.
#[derive(Debug)]
pub struct LineTracker {
    pub style_stack: Vec<usize>,
    pub flushed_visible_output: bool,
    pub line_no: usize,
    pub line_index: usize,
}

impl LineTracker {
    /// The state before the first line, numbered `line_number_start`.
    pub fn new(line_number_start: usize) -> (r: Self)
        ensures
            r.style_stack@ == Seq::<usize>::empty(),
            !r.flushed_visible_output,
            r.line_no == line_number_start,
            r.line_index == 0,
    {
        LineTracker {
            style_stack: Vec::new(),
            flushed_visible_output: false,
            line_no: line_number_start,
            line_index: 0,
        }
    }

    /// A highlight opens.
    pub fn highlight_start(&mut self, highlight: usize)
        ensures
            final(self).style_stack@ == old(self).style_stack@.push(highlight),
            final(self).flushed_visible_output == old(self).flushed_visible_output,
            final(self).line_no == old(self).line_no,
            final(self).line_index == old(self).line_index,
    {
        self.style_stack.push(highlight);
    }

    /// The innermost open highlight closes (nothing happens when none is
    /// open).
    pub fn highlight_end(&mut self)
        ensures
            final(self).style_stack@ == (if old(self).style_stack@.len() > 0 {
                old(self).style_stack@.drop_last()
            } else {
                old(self).style_stack@
            }),
            final(self).flushed_visible_output == old(self).flushed_visible_output,
            final(self).line_no == old(self).line_no,
            final(self).line_index == old(self).line_index,
    {
        let _ = self.style_stack.pop();
    }

    /// The style key for text under the open highlights.
    pub fn style_key(&self) -> (r: Option<&'static str>)
        ensures
            r matches Some(k) ==> style_key_spec(self.style_stack@) == Some(k@),
            r is None ==> style_key_spec(self.style_stack@) is None,
    {
        current_style_key(&self.style_stack)
    }

    /// Whether to write out the buffer early, holding `buffered` bytes, so
    /// that the first output shows quickly; this happens at most once.
    pub fn take_visible_flush(&mut self, buffered: usize) -> (r: bool)
        ensures
            r == (!old(self).flushed_visible_output && buffered >= STREAM_OUTPUT_FLUSH_BYTES),
            final(self).flushed_visible_output == (old(self).flushed_visible_output || r),
            final(self).style_stack@ == old(self).style_stack@,
            final(self).line_no == old(self).line_no,
            final(self).line_index == old(self).line_index,
    {
        if !self.flushed_visible_output && buffered >= STREAM_OUTPUT_FLUSH_BYTES {
            self.flushed_visible_output = true;
            true
        } else {
            false
        }
    }

    /// The steps for a piece of line text, followed by a line break when
    /// `newline_after` is set; a line break writes out everything.
    pub fn piece(&mut self, newline_after: bool, show_all: bool, decorated: bool) -> (r: Vec<
        LineAction,
    >)
        ensures
            r@ == piece_actions(newline_after, show_all, decorated),
            final(self).flushed_visible_output == (old(self).flushed_visible_output
                || newline_after),
            final(self).style_stack@ == old(self).style_stack@,
            final(self).line_no == old(self).line_no,
            final(self).line_index == old(self).line_index,
    {
        let mut r: Vec<LineAction> = Vec::new();
        if !decorated {
            r.push(LineAction::Piece);
            r.push(LineAction::EarlyFlush);
        }
        if newline_after {
            if decorated {
                r.push(LineAction::DecoratedLine);
            }
            if show_all {
                r.push(LineAction::LfMarker);
            }
            r.push(LineAction::Newline);
            r.push(LineAction::FlushAll);
            if decorated {
                r.push(LineAction::NextLine);
            }
            self.flushed_visible_output = true;
        }
        assert(r@ =~= piece_actions(newline_after, show_all, decorated));
        r
    }

    /// The steps after the last piece.
    pub fn finish(&self, decorated: bool) -> (r: Vec<LineAction>)
        ensures
            r@ == final_actions(decorated),
    {
        let mut r: Vec<LineAction> = Vec::new();
        if decorated {
            r.push(LineAction::DecoratedLine);
        }
        assert(r@ =~= final_actions(decorated));
        r
    }

    /// Moves on to the next numbered line.
    pub fn advance_line(&mut self)
        requires
            old(self).line_no < usize::MAX,
            old(self).line_index < usize::MAX,
        ensures
            final(self).line_no == old(self).line_no + 1,
            final(self).line_index == old(self).line_index + 1,
            final(self).style_stack@ == old(self).style_stack@,
            final(self).flushed_visible_output == old(self).flushed_visible_output,
    {
        self.line_no = self.line_no + 1;
        self.line_index = self.line_index + 1;
    }
}

/// The steps for pieces whose line breaks are `breaks`, in order.
pub open spec fn pieces_actions(breaks: Seq<bool>, show_all: bool, decorated: bool) -> Seq<
    LineAction,
>
    decreases breaks.len(),
{
    if breaks.len() == 0 {
        seq![]
    } else {
        pieces_actions(breaks.drop_last(), show_all, decorated) + piece_actions(
            breaks.last(),
            show_all,
            decorated,
        )
    }
}

/// The steps for a whole run: the pieces, then the final steps.
pub open spec fn run_actions(breaks: Seq<bool>, show_all: bool, decorated: bool) -> Seq<LineAction> {
    pieces_actions(breaks, show_all, decorated) + final_actions(decorated)
}

proof fn lemma_piece_counts(newline_after: bool, show_all: bool, decorated: bool)
    ensures
        count_of(piece_actions(newline_after, show_all, decorated), LineAction::LfMarker) == (if show_all
            && newline_after {
            1nat
        } else {
            0nat
        }),
        count_of(piece_actions(newline_after, show_all, decorated), LineAction::Newline) == (if newline_after {
            1nat
        } else {
            0nat
        }),
        count_of(piece_actions(newline_after, show_all, decorated), LineAction::FlushAll) == (if newline_after {
            1nat
        } else {
            0nat
        }),
{
    reveal_with_fuel(count_of, 8);
    let p = piece_actions(newline_after, show_all, decorated);
    assert(p.len() <= 7);
}

proof fn lemma_pieces_counts(breaks: Seq<bool>, show_all: bool, decorated: bool)
    ensures
        count_of(pieces_actions(breaks, show_all, decorated), LineAction::LfMarker) == (if show_all {
            count_of(breaks, true)
        } else {
            0nat
        }),
        count_of(pieces_actions(breaks, show_all, decorated), LineAction::Newline) == count_of(
            breaks,
            true,
        ),
        count_of(pieces_actions(breaks, show_all, decorated), LineAction::FlushAll) == count_of(
            breaks,
            true,
        ),
    decreases breaks.len(),
{
    if breaks.len() > 0 {
        lemma_pieces_counts(breaks.drop_last(), show_all, decorated);
        let prev = pieces_actions(breaks.drop_last(), show_all, decorated);
        let p = piece_actions(breaks.last(), show_all, decorated);
        lemma_piece_counts(breaks.last(), show_all, decorated);
        crate::text::lemma_count_of_append(prev, p, LineAction::LfMarker);
        crate::text::lemma_count_of_append(prev, p, LineAction::Newline);
        crate::text::lemma_count_of_append(prev, p, LineAction::FlushAll);
    }
}

/// Over a whole run of pieces, the output gets exactly one line break per
/// line feed of the text, each followed by writing out everything, and,
/// when unprintable characters are shown, exactly one line-feed marker per
/// line feed, empty lines included; the final steps hold no marker.
pub proof fn law_one_marker_per_line_feed(breaks: Seq<bool>, show_all: bool, decorated: bool)
    ensures
        count_of(run_actions(breaks, show_all, decorated), LineAction::LfMarker) == (if show_all {
            count_of(breaks, true)
        } else {
            0nat
        }),
        count_of(run_actions(breaks, show_all, decorated), LineAction::Newline) == count_of(
            breaks,
            true,
        ),
        count_of(run_actions(breaks, show_all, decorated), LineAction::FlushAll) == count_of(
            breaks,
            true,
        ),
{
    lemma_pieces_counts(breaks, show_all, decorated);
    let f = final_actions(decorated);
    let pieces = pieces_actions(breaks, show_all, decorated);
    assert(count_of(f, LineAction::LfMarker) == 0 && count_of(f, LineAction::Newline) == 0
        && count_of(f, LineAction::FlushAll) == 0) by {
        reveal_with_fuel(count_of, 2);
        if decorated {
            assert(f.drop_last() =~= Seq::<LineAction>::empty());
        }
    }
    crate::text::lemma_count_of_append(pieces, f, LineAction::LfMarker);
    crate::text::lemma_count_of_append(pieces, f, LineAction::Newline);
    crate::text::lemma_count_of_append(pieces, f, LineAction::FlushAll);
}

/// The decorations to draw: the change margin only when some line has a
/// change mark.
pub fn effective_decorations(config: DecorationConfig, has_git_changes: bool) -> (r:
    DecorationConfig)
    ensures
        r.show_numbers == config.show_numbers,
        r.show_headers == config.show_headers,
        r.show_changes == (config.show_changes && has_git_changes),
{
    if has_git_changes {
        config
    } else {
        DecorationConfig { show_changes: false, ..config }
    }
}

/// Width of the number column for highlighted `text` whose first line is
/// `line_number_start`.
pub fn decoration_width(text: &str, line_number_start: usize) -> (w: usize)
    ensures
        ({
            let count = if count_of(text.spec_bytes(), NEWLINE) + 1 <= usize::MAX {
                count_of(text.spec_bytes(), NEWLINE) + 1
            } else {
                usize::MAX as nat
            };
            let last = if line_number_start + count - 1 <= usize::MAX {
                line_number_start + count - 1
            } else {
                usize::MAX as int
            };
            w == number_width(last as nat)
        }),
{
    let line_count = highlight_line_count(text);
    let last_line_no = line_number_start.saturating_add(line_count.saturating_sub(1));
    line_number_width(last_line_no)
}

} // verus!
