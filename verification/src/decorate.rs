use vstd::prelude::*;

use crate::changes::LineChange;
use crate::chars::string_from_chars;
use crate::numbering::{decimal_digits, push_decimal_chars, push_spaces_chars, spaces};
use crate::style::DecorationConfig;

verus! {

/// What a piece of the margin in front of a decorated line shows, which
/// decides how it is coloured.
#[derive(Clone, Copy, Debug, PartialEq, Eq)]
pub enum MarginKind {
    Added,
    Modified,
    Removed,
    /// The change column of a line without a change.
    Unchanged,
    LineNumber,
    /// Spacing and the grid line between the margin and the text.
    Separator,
}

/// A piece of the margin and what it shows.
#[derive(Debug)]
pub struct MarginPiece {
    pub text: String,
    pub kind: MarginKind,
}

/// The symbol of a change mark and its kind: `+` added, `~` modified, `-`
/// removed, a space for no change.
pub open spec fn change_symbol(change: Option<LineChange>) -> (Seq<char>, MarginKind) {
    match change {
        Some(LineChange::Added) => (seq!['+'], MarginKind::Added),
        Some(LineChange::Modified) => (seq!['~'], MarginKind::Modified),
        Some(LineChange::RemovedAbove) => (seq!['-'], MarginKind::Removed),
        Some(LineChange::RemovedBelow) => (seq!['-'], MarginKind::Removed),
        None => (seq![' '], MarginKind::Unchanged),
    }
}

/// The number of line `line_no`, right-aligned in a column of `width`.
pub open spec fn number_column(line_no: nat, width: nat) -> Seq<char> {
    let d = decimal_digits(line_no);
    let pad = if width > d.len() {
        (width - d.len()) as nat
    } else {
        0nat
    };
    spaces(pad) + d
}

/// The margin in front of a decorated line: the change mark and a space
/// when the change column is shown, then the line number and the grid
/// separator ` │ ` when numbers are shown.
pub open spec fn margin_spec(
    line_no: nat,
    width: nat,
    config: DecorationConfig,
    change: Option<LineChange>,
) -> Seq<(Seq<char>, MarginKind)> {
    let changes = if config.show_changes {
        seq![change_symbol(change), (seq![' '], MarginKind::Separator)]
    } else {
        Seq::<(Seq<char>, MarginKind)>::empty()
    };
    let numbers = if config.show_numbers {
        seq![
            (number_column(line_no, width), MarginKind::LineNumber),
            (seq![' ', '\u{2502}', ' '], MarginKind::Separator),
        ]
    } else {
        Seq::<(Seq<char>, MarginKind)>::empty()
    };
    changes + numbers
}

/// The views of margin pieces.
pub open spec fn margin_views(v: Seq<MarginPiece>) -> Seq<(Seq<char>, MarginKind)> {
    v.map_values(|p: MarginPiece| (p.text@, p.kind))
}

fn piece_of(chars: &[char], kind: MarginKind) -> (r: MarginPiece)
    ensures
        r.text@ == chars@,
        r.kind == kind,
{
    MarginPiece { text: string_from_chars(chars), kind }
}

/// The margin pieces in front of line `line_no` of a decorated file whose
/// numbers take `width` columns.
pub fn decoration_margin(
    line_no: usize,
    width: usize,
    config: DecorationConfig,
    change: Option<LineChange>,
) -> (r: Vec<MarginPiece>)
    ensures
        margin_views(r@) == margin_spec(line_no as nat, width as nat, config, change),
{
    let mut r: Vec<MarginPiece> = Vec::new();
    if config.show_changes {
        let (symbol, kind) = match change {
            Some(LineChange::Added) => ('+', MarginKind::Added),
            Some(LineChange::Modified) => ('~', MarginKind::Modified),
            Some(LineChange::RemovedAbove) => ('-', MarginKind::Removed),
            Some(LineChange::RemovedBelow) => ('-', MarginKind::Removed),
            None => (' ', MarginKind::Unchanged),
        };
        assert((seq![symbol], kind) == change_symbol(change));
        let mut s: Vec<char> = Vec::new();
        s.push(symbol);
        assert(s@ =~= seq![symbol]);
        r.push(piece_of(&s, kind));
        let mut sp: Vec<char> = Vec::new();
        sp.push(' ');
        assert(sp@ =~= seq![' ']);
        r.push(piece_of(&sp, MarginKind::Separator));
        assert(margin_views(r@) =~= seq![change_symbol(change), (seq![' '], MarginKind::Separator)]);
    } else {
        assert(margin_views(r@) =~= Seq::<(Seq<char>, MarginKind)>::empty());
    }
    let ghost before = margin_views(r@);
    if config.show_numbers {
        let digits = crate::numbering::line_number_width(line_no);
        let pad = if width > digits {
            width - digits
        } else {
            0
        };
        let mut col: Vec<char> = Vec::new();
        push_spaces_chars(&mut col, pad);
        push_decimal_chars(&mut col, line_no);
        assert(col@ =~= number_column(line_no as nat, width as nat));
        r.push(piece_of(&col, MarginKind::LineNumber));
        let mut sep: Vec<char> = Vec::new();
        sep.push(' ');
        sep.push('\u{2502}');
        sep.push(' ');
        assert(sep@ =~= seq![' ', '\u{2502}', ' ']);
        r.push(piece_of(&sep, MarginKind::Separator));
        assert(margin_views(r@) =~= before + seq![
            (number_column(line_no as nat, width as nat), MarginKind::LineNumber),
            (seq![' ', '\u{2502}', ' '], MarginKind::Separator),
        ]);
    }
    assert(margin_views(r@) =~= margin_spec(line_no as nat, width as nat, config, change));
    r
}

} // verus!
