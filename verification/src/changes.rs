use vstd::prelude::*;

use crate::chars::chars_of;
use crate::highlight::{line_text, source_lines};
use crate::numbering::text_lines;
use crate::range::{parse_usize, parsed_usize, split_once_chars, split_once_spec};

verus! {

broadcast use vstd::string::group_string_axioms;

/// How a line differs from the version in the repository index.
#[derive(Clone, Copy, Debug, PartialEq, Eq)]
pub enum LineChange {
    /// The line is new.
    Added,
    /// The line replaces other lines.
    Modified,
    /// Lines were removed above the first line.
    RemovedAbove,
    /// Lines were removed below this line.
    RemovedBelow,
}

/// A hunk of a unified diff: where its old lines start and how many there
/// are, and the same of its new lines.
#[derive(Clone, Copy, Debug, PartialEq, Eq)]
pub struct Hunk {
    pub old_start: usize,
    pub old_count: usize,
    pub new_start: usize,
    pub new_count: usize,
}

/// A hunk range `start,count`, or `start` alone for a count of 1.
pub open spec fn hunk_range_spec(r: Seq<char>) -> Option<(nat, nat)> {
    match split_once_spec(r, ',') {
        Some((a, b)) => match (parsed_usize(a), parsed_usize(b)) {
            (Some(x), Some(y)) => Some((x, y)),
            _ => None,
        },
        None => match parsed_usize(r) {
            Some(x) => Some((x, 1)),
            None => None,
        },
    }
}

/// The hunk that the header line `l` announces: `@@ -<old> +<new> @@`
/// followed by anything.
pub open spec fn hunk_header_spec(l: Seq<char>) -> Option<Hunk> {
    if l.len() >= 4 && l[0] == '@' && l[1] == '@' && l[2] == ' ' && l[3] == '-' {
        match split_once_spec(l.skip(4), ' ') {
            Some((old, rest)) => if rest.len() >= 1 && rest[0] == '+' {
                match split_once_spec(rest.drop_first(), ' ') {
                    Some((new, tail)) => if tail.len() >= 2 && tail[0] == '@' && tail[1] == '@' {
                        match (hunk_range_spec(old), hunk_range_spec(new)) {
                            (Some((os, oc)), Some((ns, nc))) => Some(
                                Hunk {
                                    old_start: os as usize,
                                    old_count: oc as usize,
                                    new_start: ns as usize,
                                    new_count: nc as usize,
                                },
                            ),
                            _ => None,
                        }
                    } else {
                        None
                    },
                    None => None,
                }
            } else {
                None
            },
            None => None,
        }
    } else {
        None
    }
}

fn parse_hunk_range(v: &[char]) -> (r: Option<(usize, usize)>)
    ensures
        r matches Some((a, b)) ==> hunk_range_spec(v@) == Some((a as nat, b as nat)),
        r is None ==> hunk_range_spec(v@) is None,
{
    match split_once_chars(v, ',') {
        Some((a, b)) => {
            let x = parse_usize(&a)?;
            let y = parse_usize(&b)?;
            Some((x, y))
        },
        None => {
            let x = parse_usize(v)?;
            Some((x, 1))
        },
    }
}

/// Reads a hunk header line of a unified diff.
pub fn parse_hunk_header(line: &str) -> (r: Option<Hunk>)
    ensures
        r == hunk_header_spec(line@),
{
    let l = chars_of(line);
    if !(l.len() >= 4 && l[0] == '@' && l[1] == '@' && l[2] == ' ' && l[3] == '-') {
        return None;
    }
    let mut s: Vec<char> = Vec::new();
    let mut i: usize = 4;
    while i < l.len()
        invariant
            4 <= i <= l@.len(),
            s@ == l@.subrange(4, i as int),
        decreases l@.len() - i,
    {
        s.push(l[i]);
        assert(l@.subrange(4, i + 1) =~= l@.subrange(4, i as int).push(l@[i as int]));
        i = i + 1;
    }
    assert(s@ =~= l@.skip(4));
    let (old, rest) = split_once_chars(&s, ' ')?;
    if !(rest.len() >= 1 && rest[0] == '+') {
        return None;
    }
    let mut r2: Vec<char> = Vec::new();
    let mut j: usize = 1;
    while j < rest.len()
        invariant
            1 <= j <= rest@.len(),
            r2@ == rest@.subrange(1, j as int),
        decreases rest@.len() - j,
    {
        r2.push(rest[j]);
        assert(rest@.subrange(1, j + 1) =~= rest@.subrange(1, j as int).push(rest@[j as int]));
        j = j + 1;
    }
    assert(r2@ =~= rest@.drop_first());
    let (new, tail) = split_once_chars(&r2, ' ')?;
    if !(tail.len() >= 2 && tail[0] == '@' && tail[1] == '@') {
        return None;
    }
    let (os, oc) = parse_hunk_range(&old)?;
    let (ns, nc) = parse_hunk_range(&new)?;
    Some(Hunk { old_start: os, old_count: oc, new_start: ns, new_count: nc })
}

/// `line` (1-based) lies among the new lines of `h`.
pub open spec fn in_new_lines(h: Hunk, line: int) -> bool {
    h.new_start <= line && line - h.new_start < h.new_count
}

/// The mark that hunk `h` puts on line `line` (1-based), if any: new lines
/// of a hunk that removes nothing are added; a hunk that adds nothing marks
/// the line its removal follows (or the first line, when lines were removed
/// above it); the new lines of any other hunk are modified.
pub open spec fn hunk_mark(h: Hunk, line: int) -> Option<LineChange> {
    if h.old_count == 0 && h.new_count > 0 {
        if in_new_lines(h, line) {
            Some(LineChange::Added)
        } else {
            None
        }
    } else if h.new_count == 0 && h.old_count > 0 {
        if h.new_start == 0 {
            if line == 1 {
                Some(LineChange::RemovedAbove)
            } else {
                None
            }
        } else if line == h.new_start {
            Some(LineChange::RemovedBelow)
        } else {
            None
        }
    } else if in_new_lines(h, line) {
        Some(LineChange::Modified)
    } else {
        None
    }
}

/// `marks` with the marks of `h` laid over them.
pub open spec fn apply_hunk_spec(marks: Seq<Option<LineChange>>, h: Hunk) -> Seq<Option<LineChange>> {
    Seq::new(
        marks.len(),
        |i: int|
            match hunk_mark(h, i + 1) {
                Some(m) => Some(m),
                None => marks[i],
            },
    )
}

/// Sets `marks[line - 1]` to `m` when `line` is a line of `marks`.
fn mark_line(marks: &mut Vec<Option<LineChange>>, line: usize, m: LineChange)
    ensures
        1 <= line <= old(marks)@.len() ==> final(marks)@ == old(marks)@.update(line - 1, Some(m)),
        !(1 <= line <= old(marks)@.len()) ==> final(marks)@ == old(marks)@,
{
    if 1 <= line && line <= marks.len() {
        marks.set(line - 1, Some(m));
    }
}

/// Lays the marks of hunk `h` over `marks`.
pub fn apply_hunk(marks: &mut Vec<Option<LineChange>>, h: Hunk)
    ensures
        final(marks)@ == apply_hunk_spec(old(marks)@, h),
{
    let n = marks.len();
    if h.new_count == 0 && h.old_count > 0 {
        if h.new_start == 0 {
            mark_line(marks, 1, LineChange::RemovedAbove);
        } else {
            mark_line(marks, h.new_start, LineChange::RemovedBelow);
        }
        assert(marks@ =~= apply_hunk_spec(old(marks)@, h));
        return;
    }
    let m = if h.old_count == 0 && h.new_count > 0 {
        LineChange::Added
    } else {
        LineChange::Modified
    };
    let mut k: usize = 0;
    while k < h.new_count && k <= n
        invariant
            n == old(marks)@.len(),
            marks@.len() == n,
            k <= h.new_count,
            !(h.new_count == 0 && h.old_count > 0),
            m == (if h.old_count == 0 && h.new_count > 0 {
                LineChange::Added
            } else {
                LineChange::Modified
            }),
            forall|i: int|
                0 <= i < n ==> #[trigger] marks@[i] == (if i + 1 >= h.new_start && i + 1
                    - h.new_start < k {
                    Some(m)
                } else {
                    old(marks)@[i]
                }),
        decreases h.new_count - k,
    {
        if h.new_start <= n && k <= n - h.new_start && h.new_start + k >= 1 {
            let line = h.new_start + k;
            mark_line(marks, line, m);
        }
        k = k + 1;
    }
    assert forall|i: int| 0 <= i < n implies #[trigger] marks@[i] == apply_hunk_spec(
        old(marks)@,
        h,
    )[i] by {
        if i + 1 >= h.new_start && i + 1 - h.new_start < h.new_count {
            assert(i + 1 - h.new_start < k);
        }
    }
    assert(marks@ =~= apply_hunk_spec(old(marks)@, h));
}

/// The marks on `n` lines after every hunk header among `lines` is laid
/// over them in turn.
pub open spec fn diff_marks(lines: Seq<Seq<char>>, n: nat) -> Seq<Option<LineChange>>
    decreases lines.len(),
{
    if lines.len() == 0 {
        Seq::new(n, |i: int| None::<LineChange>)
    } else {
        let m = diff_marks(lines.drop_last(), n);
        match hunk_header_spec(line_text(lines.last())) {
            Some(h) => apply_hunk_spec(m, h),
            None => m,
        }
    }
}

/// The change marks for the `line_count` lines of a file, read from the
/// unified diff (without context lines) of that file against the
/// repository.
pub fn line_changes_from_diff(diff: &str, line_count: usize) -> (r: Vec<Option<LineChange>>)
    ensures
        r@ == diff_marks(text_lines(diff@), line_count as nat),
{
    let mut marks: Vec<Option<LineChange>> = Vec::new();
    let mut i: usize = 0;
    while i < line_count
        invariant
            i <= line_count,
            marks@ =~= Seq::new(i as nat, |j: int| None::<LineChange>),
        decreases line_count - i,
    {
        marks.push(None);
        i = i + 1;
    }
    let lines = source_lines(diff);
    let ghost ls = text_lines(diff@);
    assert(marks@ =~= diff_marks(ls.take(0), line_count as nat));
    let mut k: usize = 0;
    while k < lines.len()
        invariant
            k <= lines@.len(),
            crate::highlight::describes_lines(lines@, ls),
            marks@ == diff_marks(ls.take(k as int), line_count as nat),
        decreases lines@.len() - k,
    {
        assert(ls.take(k + 1).drop_last() =~= ls.take(k as int));
        assert(lines@[k as int].text@ == line_text(ls[k as int]));
        match parse_hunk_header(lines[k].text.as_str()) {
            Some(h) => apply_hunk(&mut marks, h),
            None => {},
        }
        k = k + 1;
    }
    assert(ls.take(lines@.len() as int) =~= ls);
    marks
}

} // verus!
