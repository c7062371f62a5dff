use vstd::prelude::*;
use vstd::string::StringSliceAdditionalSpecFns;
use vstd::utf8::{decode_utf8, encode_utf8, valid_utf8};

use crate::lines::{byte_lines, first_line_number, prepare_bytes, prepared_bytes, LineRange, NEWLINE};
use crate::numbering::{
    number_plain_text, numbered_lines, numbered_text, numbering_width, text_lines,
    write_numbered_bytes,
};
use crate::style::DecorationConfig;
use crate::text::concat_all;
use crate::unprintable::{show_unprintable, shown_unprintable};

verus! {

broadcast use vstd::string::group_string_axioms;

/// The text that `bytes` encode, when they are valid UTF-8
/// (std's `str::from_utf8`).
#[verifier::external_body]
fn utf8_text(bytes: &[u8]) -> (r: Option<&str>)
    ensures
        r is Some <==> valid_utf8(bytes@),
        r matches Some(s) ==> s.spec_bytes() == bytes@,
{
    std::str::from_utf8(bytes).ok()
}

/// The text that `String::from_utf8_lossy` reads from `bytes`, each invalid
/// sequence replaced by U+FFFD.
pub uninterp spec fn utf8_lossy(bytes: Seq<u8>) -> Seq<char>;

/// Decodes `bytes`, replacing invalid sequences (`String::from_utf8_lossy`).
#[verifier::external_body]
fn lossy_text(bytes: &[u8]) -> (r: String)
    ensures
        r@ == utf8_lossy(bytes@),
{
    String::from_utf8_lossy(bytes).into_owned()
}

proof fn lemma_encode_len(chars: Seq<char>)
    ensures
        encode_utf8(chars).len() >= chars.len(),
    decreases chars.len(),
{
    if chars.len() > 0 {
        lemma_encode_len(chars.drop_first());
    }
}

proof fn lemma_text_of_bytes(s: &str, bytes: Seq<u8>)
    requires
        s.spec_bytes() == bytes,
    ensures
        s@ == decode_utf8(bytes),
        s@.len() <= bytes.len(),
        valid_utf8(bytes),
{
    vstd::utf8::encode_utf8_decode_utf8(s@);
    vstd::utf8::encode_utf8_valid_utf8(s@);
    lemma_encode_len(s@);
}

/// The plain values of the rendering settings that decide how bytes are
/// written.
#[derive(Clone, Copy, Debug)]
pub struct EmitSettings {
    pub decoration_config: DecorationConfig,
    pub use_color: bool,
    pub squeeze_blank: bool,
    pub squeeze_limit: usize,
    pub show_all: bool,
}

/// Text that still has to be highlighted, and the number of its first line.
#[derive(Debug)]
pub struct HighlightJob {
    pub text: String,
    pub line_number_start: usize,
}

/// What emitting a file gave: whether its shown part ended with a newline
/// (or was empty), and the text left to highlight, if any.
#[derive(Debug)]
pub struct EmitOutcome {
    pub ended_with_newline: bool,
    pub highlight: Option<HighlightJob>,
}

/// `text` shown without highlighting: numbered when `show_numbers` is set,
/// with visible unprintable characters when `show_all` is set.
pub open spec fn unhighlighted(text: Seq<char>, start: nat, show_numbers: bool, show_all: bool) -> Seq<
    char,
> {
    if show_numbers {
        numbered_text(
            text_lines(text),
            start,
            numbering_width(start, text_lines(text).len()),
            show_all,
        )
    } else if show_all {
        shown_unprintable(text)
    } else {
        text
    }
}

/// What is written for the prepared bytes `p` whose first line is number
/// `start`; `None` when the text goes to the highlighter instead.
pub open spec fn plain_output(p: Seq<u8>, start: nat, settings: EmitSettings) -> Option<Seq<u8>> {
    let dc = settings.decoration_config;
    let has_decorations = dc.show_numbers || dc.show_changes;
    let numbered = numbered_lines(byte_lines(p), start, numbering_width(start, byte_lines(p).len()));
    if !settings.use_color && !has_decorations {
        if settings.show_all && valid_utf8(p) {
            Some(encode_utf8(shown_unprintable(decode_utf8(p))))
        } else {
            Some(p)
        }
    } else if settings.use_color {
        if valid_utf8(p) {
            None
        } else if dc.show_numbers {
            Some(numbered)
        } else if settings.show_all {
            Some(encode_utf8(shown_unprintable(utf8_lossy(p))))
        } else {
            Some(p)
        }
    } else if dc.show_numbers {
        if settings.show_all && valid_utf8(p) {
            Some(encode_utf8(unhighlighted(decode_utf8(p), start, true, true)))
        } else {
            Some(numbered)
        }
    } else if settings.show_all && valid_utf8(p) {
        Some(encode_utf8(shown_unprintable(decode_utf8(p))))
    } else {
        Some(p)
    }
}

/// Appends `bytes` to `out`.
fn append_all(out: &mut Vec<u8>, bytes: &[u8])
    ensures
        final(out)@ == old(out)@ + bytes@,
{
    let mut i: usize = 0;
    while i < bytes.len()
        invariant
            i <= bytes@.len(),
            out@ == old(out)@ + bytes@.take(i as int),
        decreases bytes@.len() - i,
    {
        out.push(bytes[i]);
        assert(bytes@.take(i + 1) =~= bytes@.take(i as int).push(bytes@[i as int]));
        i = i + 1;
    }
    assert(bytes@.take(bytes@.len() as int) =~= bytes@);
}

/// Shows `text` without highlighting, as the fallback when no highlighter
/// applies.
pub fn render_unhighlighted(text: &str, line_number_start: usize, show_numbers: bool, show_all: bool) -> (r:
    String)
    requires
        show_numbers ==> line_number_start + text_lines(text@).len() <= usize::MAX,
    ensures
        r@ == unhighlighted(text@, line_number_start as nat, show_numbers, show_all),
{
    if show_numbers {
        number_plain_text(text, line_number_start, show_all)
    } else if show_all {
        show_unprintable(text)
    } else {
        text.to_owned()
    }
}

/// Writes the part of `bytes` that is to be shown, selected by `line_range`
/// and squeezed as `settings` ask, into `out` when it needs no highlighting;
/// otherwise hands its text back to be highlighted.
pub fn emit_bytes(
    out: &mut Vec<u8>,
    bytes: Vec<u8>,
    line_range: Option<LineRange>,
    settings: &EmitSettings,
) -> (r: EmitOutcome)
    requires
        bytes@.len() < usize::MAX,
    ensures
        ({
            let p = prepared_bytes(
                bytes@,
                line_range,
                settings.squeeze_blank,
                settings.squeeze_limit as nat,
            );
            let start = first_line_number(line_range);
            &&& r.ended_with_newline == (p.len() == 0 || p.last() == NEWLINE)
            &&& match plain_output(p, start, *settings) {
                Some(o) => r.highlight is None && final(out)@ == old(out)@ + o,
                None => r.highlight matches Some(job) && job.text@ == decode_utf8(p)
                    && job.line_number_start == start && final(out)@ == old(out)@
                    && job.line_number_start + text_lines(job.text@).len() <= usize::MAX,
            }
        }),
{
    let p = prepare_bytes(bytes, line_range, settings.squeeze_blank, settings.squeeze_limit);
    let line_number_start: usize = match line_range {
        Some(range) => range.start,
        None => 1,
    };
    let ended_with_newline = p.len() == 0 || p[p.len() - 1] == NEWLINE;
    let dc = settings.decoration_config;
    let show_all = settings.show_all;
    proof {
        crate::text::lemma_split_lines_len(p@, NEWLINE);
    }
    let text = utf8_text(&p);
    proof {
        if let Some(t) = text {
            lemma_text_of_bytes(t, p@);
            crate::text::lemma_split_lines_len(t@, '\n');
        }
    }
    if !settings.use_color && !dc.has_decorations() {
        match text {
            Some(t) if show_all => {
                let shown = show_unprintable(t);
                append_all(out, shown.as_str().as_bytes());
            },
            _ => {
                append_all(out, &p);
            },
        }
        return EmitOutcome { ended_with_newline, highlight: None };
    }
    if settings.use_color {
        match text {
            Some(t) => {
                return EmitOutcome {
                    ended_with_newline,
                    highlight: Some(HighlightJob { text: t.to_owned(), line_number_start }),
                };
            },
            None => {
                if dc.show_numbers {
                    write_numbered_bytes(out, &p, line_number_start);
                } else if show_all {
                    let lossy = lossy_text(&p);
                    let shown = show_unprintable(lossy.as_str());
                    append_all(out, shown.as_str().as_bytes());
                } else {
                    append_all(out, &p);
                }
                return EmitOutcome { ended_with_newline, highlight: None };
            },
        }
    }
    if dc.show_numbers {
        match text {
            Some(t) if show_all => {
                let numbered = number_plain_text(t, line_number_start, show_all);
                append_all(out, numbered.as_str().as_bytes());
            },
            _ => {
                write_numbered_bytes(out, &p, line_number_start);
            },
        }
    } else {
        match text {
            Some(t) if show_all => {
                let shown = show_unprintable(t);
                append_all(out, shown.as_str().as_bytes());
            },
            _ => {
                append_all(out, &p);
            },
        }
    }
    EmitOutcome { ended_with_newline, highlight: None }
}

/// Whether change marks are looked up for the file at `path` (`None` for
/// standard input): only for real files, and only when asked for.
pub fn wants_git_changes(show_changes: bool, path: Option<&str>) -> (r: bool)
    ensures
        r == (show_changes && (path matches Some(p) && !crate::range::is_stdin_path_spec(p@))),
{
    if !show_changes {
        return false;
    }
    match path {
        Some(p) => !crate::range::is_stdin_path(p),
        None => false,
    }
}

} // verus!

verus! {

/// With nothing asked for (no colour, no decorations, no squeezing, no
/// visible unprintable characters), the bytes are written exactly as read,
/// whether no line range is given or one that starts at line 1 and reaches
/// past the last line.
pub proof fn law_plain_output_copies_input(bytes: Seq<u8>, end: usize, settings: EmitSettings)
    requires
        !settings.use_color,
        !settings.squeeze_blank,
        !settings.show_all,
        !settings.decoration_config.show_numbers,
        !settings.decoration_config.show_changes,
        end >= byte_lines(bytes).len(),
    ensures
        plain_output(prepared_bytes(bytes, None, false, settings.squeeze_limit as nat), 1, settings)
            == Some(bytes),
        prepared_bytes(bytes, Some(LineRange { start: 1, end }), false, settings.squeeze_limit as nat)
            == bytes,
{
    let ls = byte_lines(bytes);
    crate::lines::law_line_range_selects_lines(bytes, 1, end as nat);
    assert(crate::lines::range_lines(ls, 1, end as nat) =~= ls);
    crate::text::lemma_concat_split_lines(bytes, NEWLINE);
}

} // verus!

verus! {

/// Whenever line numbers are shown and no highlighter takes the text, the
/// `k`-th shown line (counting from 0) is written behind the margin of
/// number `start + k`, where `start` is the first line of the range (1
/// without a range): the number in front of the first line of a range
/// starting at `s` is `s`. Lines are written as they are, or, when
/// unprintable characters are shown in valid UTF-8 text, in their visible
/// form.
pub proof fn law_numbers_start_at_range_start(
    bytes: Seq<u8>,
    line_range: Option<LineRange>,
    settings: EmitSettings,
)
    requires
        settings.decoration_config.show_numbers,
    ensures
        ({
            let p = prepared_bytes(
                bytes,
                line_range,
                settings.squeeze_blank,
                settings.squeeze_limit as nat,
            );
            let start: nat = match line_range {
                Some(r) => r.start as nat,
                None => 1,
            };
            let out = plain_output(p, first_line_number(line_range), settings);
            let bl = byte_lines(p);
            let tl = text_lines(decode_utf8(p));
            &&& (settings.use_color && valid_utf8(p)) ==> out is None
            &&& ((settings.use_color && !valid_utf8(p)) || (!settings.use_color && (
            !settings.show_all || !valid_utf8(p)))) ==> out == Some(
                concat_all(
                    Seq::new(
                        bl.len(),
                        |k: int|
                            crate::numbering::ascii_bytes(
                                crate::numbering::line_prefix(
                                    (start + k) as nat,
                                    numbering_width(start, bl.len()),
                                ),
                            ) + bl[k],
                    ),
                ),
            )
            &&& (!settings.use_color && settings.show_all && valid_utf8(p)) ==> out == Some(
                encode_utf8(
                    concat_all(
                        Seq::new(
                            tl.len(),
                            |k: int|
                                crate::numbering::line_prefix(
                                    (start + k) as nat,
                                    numbering_width(start, tl.len()),
                                ) + shown_unprintable(tl[k]),
                        ),
                    ),
                ),
            )
        }),
{
    let p = prepared_bytes(bytes, line_range, settings.squeeze_blank, settings.squeeze_limit as nat);
    let start: nat = match line_range {
        Some(r) => r.start as nat,
        None => 1,
    };
    assert(first_line_number(line_range) == start);
    let bl = byte_lines(p);
    let tl = text_lines(decode_utf8(p));
    crate::numbering::lemma_numbered_margined(bl, start, numbering_width(start, bl.len()));
    assert(crate::numbering::margined_lines(bl, start, numbering_width(start, bl.len())) =~= Seq::new(
        bl.len(),
        |k: int|
            crate::numbering::ascii_bytes(
                crate::numbering::line_prefix((start + k) as nat, numbering_width(start, bl.len())),
            ) + bl[k],
    ));
    crate::numbering::lemma_numbered_text_margined(
        tl,
        start,
        numbering_width(start, tl.len()),
        true,
    );
    assert(Seq::new(
        tl.len(),
        |k: int|
            crate::numbering::line_prefix((start + k) as nat, numbering_width(start, tl.len()))
                + crate::numbering::line_content(tl[k], true),
    ) =~= Seq::new(
        tl.len(),
        |k: int|
            crate::numbering::line_prefix((start + k) as nat, numbering_width(start, tl.len()))
                + shown_unprintable(tl[k]),
    ));
}

} // verus!
