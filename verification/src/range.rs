use vstd::prelude::*;

use crate::chars::{chars_of, copy_range, string_from_chars, trim, trimmed};
use crate::lines::LineRange;
use crate::text::free_of;

verus! {

broadcast use vstd::string::group_string_axioms;

/// Whether `c` is an ASCII decimal digit.
pub open spec fn is_digit(c: char) -> bool {
    '0' <= c <= '9'
}

/// Every character of `s` is a decimal digit.
pub open spec fn all_digits(s: Seq<char>) -> bool {
    forall|i: int| 0 <= i < s.len() ==> is_digit(#[trigger] s[i])
}

/// The number written by the decimal digits `s`.
pub open spec fn digits_value(s: Seq<char>) -> nat
    decreases s.len(),
{
    if s.len() == 0 {
        0
    } else {
        digits_value(s.drop_last()) * 10 + ((s.last() as int) - 48) as nat
    }
}

/// What `str::parse::<usize>` gives for `s`: an optional `+`, then at least
/// one decimal digit and nothing else, for a value that fits in `usize`.
pub open spec fn parsed_usize(s: Seq<char>) -> Option<nat> {
    let d = if s.len() > 0 && s[0] == '+' {
        s.drop_first()
    } else {
        s
    };
    if d.len() > 0 && all_digits(d) && digits_value(d) <= usize::MAX {
        Some(digits_value(d))
    } else {
        None
    }
}

proof fn lemma_digits_value_mono(s: Seq<char>, k: int)
    requires
        0 <= k <= s.len(),
        all_digits(s),
    ensures
        digits_value(s.take(k)) <= digits_value(s),
    decreases s.len() - k,
{
    if k < s.len() {
        lemma_digits_value_mono(s, k + 1);
        assert(s.take(k + 1).drop_last() =~= s.take(k));
        assert(is_digit(s[k]));
    } else {
        assert(s.take(k) =~= s);
    }
}

/// Parses `v` as `str::parse::<usize>` does.
pub fn parse_usize(v: &[char]) -> (r: Option<usize>)
    ensures
        r matches Some(n) ==> parsed_usize(v@) == Some(n as nat),
        r is None ==> parsed_usize(v@) is None,
{
    let from: usize = if v.len() > 0 && v[0] == '+' {
        1
    } else {
        0
    };
    let ghost d = v@.skip(from as int);
    assert(d =~= (if v@.len() > 0 && v@[0] == '+' {
        v@.drop_first()
    } else {
        v@
    }));
    if from == v.len() {
        return None;
    }
    let mut i = from;
    while i < v.len()
        invariant
            from <= i <= v@.len(),
            d == v@.skip(from as int),
            d =~= (if v@.len() > 0 && v@[0] == '+' {
                v@.drop_first()
            } else {
                v@
            }),
            forall|j: int| 0 <= j < i - from ==> is_digit(#[trigger] d[j]),
        decreases v@.len() - i,
    {
        if !('0' <= v[i] && v[i] <= '9') {
            assert(d[i - from] == v@[i as int]);
            assert(!is_digit(d[i - from]));
            assert(!all_digits(d));
            return None;
        }
        i = i + 1;
    }
    assert(all_digits(d));
    let mut value: usize = 0;
    let mut k = from;
    while k < v.len()
        invariant
            from <= k <= v@.len(),
            d == v@.skip(from as int),
            d =~= (if v@.len() > 0 && v@[0] == '+' {
                v@.drop_first()
            } else {
                v@
            }),
            all_digits(d),
            value == digits_value(d.take(k - from)),
        decreases v@.len() - k,
    {
        assert(is_digit(d[k - from]));
        assert(d[k - from] == v@[k as int]);
        let digit = (v[k] as u32 - 48u32) as usize;
        proof {
            let x = d.take(k - from + 1);
            assert(x.last() == v@[k as int]);
            assert((x.last() as int) - 48 == digit as int);
            assert(digits_value(x) == digits_value(x.drop_last()) * 10 + digit);
        }
        assert(d.take(k - from + 1).drop_last() =~= d.take(k - from));
        assert(d.take(k - from + 1).last() == v@[k as int]);
        match value.checked_mul(10) {
            Some(m) => match m.checked_add(digit) {
                Some(n) => {
                    value = n;
                },
                None => {
                    proof {
                        lemma_digits_value_mono(d, k - from + 1);
                    }
                    return None;
                },
            },
            None => {
                proof {
                    lemma_digits_value_mono(d, k - from + 1);
                }
                return None;
            },
        }
        k = k + 1;
    }
    assert(d.take(v@.len() - from) =~= d);
    Some(value)
}

/// `c` occurs at `i` in `s` and nowhere before.
pub open spec fn first_at(s: Seq<char>, c: char, i: int) -> bool {
    0 <= i < s.len() && s[i] == c && free_of(s, c, 0, i)
}

/// `s` split around its first `c`, as `str::split_once` gives it.
pub open spec fn split_once_spec(s: Seq<char>, c: char) -> Option<(Seq<char>, Seq<char>)> {
    if exists|i: int| first_at(s, c, i) {
        let i = choose|i: int| first_at(s, c, i);
        Some((s.take(i), s.skip(i + 1)))
    } else {
        None
    }
}

pub(crate) fn split_once_chars(v: &[char], c: char) -> (r: Option<(Vec<char>, Vec<char>)>)
    ensures
        r matches Some((a, b)) ==> split_once_spec(v@, c) == Some((a@, b@)),
        r is None ==> split_once_spec(v@, c) is None,
{
    let mut i: usize = 0;
    while i < v.len()
        invariant
            i <= v@.len(),
            free_of(v@, c, 0, i as int),
        decreases v@.len() - i,
    {
        if v[i] == c {
            assert(first_at(v@, c, i as int));
            proof {
                let j = choose|j: int| first_at(v@, c, j);
                if j < i {
                    assert(v@[j] != c);
                }
                if j > i {
                    assert(v@[i as int] != c);
                }
            }
            let a = copy_range(v, 0, i);
            let b = copy_range(v, i + 1, v.len());
            assert(a@ =~= v@.take(i as int));
            assert(b@ =~= v@.skip(i + 1));
            return Some((a, b));
        }
        i = i + 1;
    }
    assert forall|j: int| !first_at(v@, c, j) by {
        if 0 <= j < v@.len() {
            assert(v@[j] != c);
        }
    }
    None
}

/// `s` split at the first separator among `-`, then `:`, then `,`.
pub open spec fn split_range_spec(s: Seq<char>) -> Option<(Seq<char>, Seq<char>)> {
    match split_once_spec(s, '-') {
        Some(p) => Some(p),
        None => match split_once_spec(s, ':') {
            Some(p) => Some(p),
            None => split_once_spec(s, ','),
        },
    }
}

fn split_range_chars(v: &[char]) -> (r: Option<(Vec<char>, Vec<char>)>)
    ensures
        r matches Some((a, b)) ==> split_range_spec(v@) == Some((a@, b@)),
        r is None ==> split_range_spec(v@) is None,
{
    match split_once_chars(v, '-') {
        Some(p) => Some(p),
        None => match split_once_chars(v, ':') {
            Some(p) => Some(p),
            None => split_once_chars(v, ','),
        },
    }
}

/// Splits a line range at its first `-`, or else its first `:`, or else its
/// first `,`.
pub fn split_line_range(raw: &str) -> (r: Option<(&str, &str)>)
    ensures
        r matches Some((a, b)) ==> split_range_spec(raw@) == Some((a@, b@)),
        r is None ==> split_range_spec(raw@) is None,
{
    let v = chars_of(raw);
    match split_range_chars(&v) {
        Some((a, b)) => {
            proof {
                let (sa, sb) = split_range_spec(v@).unwrap();
                let c = if split_once_spec(v@, '-') is Some {
                    '-'
                } else if split_once_spec(v@, ':') is Some {
                    ':'
                } else {
                    ','
                };
                let i = choose|i: int| first_at(v@, c, i);
                assert(first_at(v@, c, i));
                assert(sa == v@.take(i));
                assert(sb == v@.skip(i + 1));
                assert(a@.len() == i);
                assert(a@.len() < v@.len());
            }
            let n: usize = a.len();
            assert(n < v.len());
            let first = raw.substring_char(0, n);
            let second = raw.substring_char(n + 1, v.len());
            assert(first@ =~= a@);
            assert(second@ =~= b@);
            Some((first, second))
        },
        None => None,
    }
}

/// `s` without one leading `L` or `l`.
pub open spec fn strip_line_marker(s: Seq<char>) -> Seq<char> {
    if s.len() > 0 && (s[0] == 'L' || s[0] == 'l') {
        s.drop_first()
    } else {
        s
    }
}

fn strip_marker_chars(v: &[char]) -> (r: Vec<char>)
    ensures
        r@ == strip_line_marker(v@),
{
    if v.len() > 0 && (v[0] == 'L' || v[0] == 'l') {
        let r = copy_range(v, 1, v.len());
        assert(r@ =~= v@.drop_first());
        r
    } else {
        let r = copy_range(v, 0, v.len());
        assert(r@ =~= v@);
        r
    }
}

/// The range `raw` denotes: `start-end`, `start:end`, `start,end` or a
/// single line number, optionally behind an `L` (also before `end`), with
/// white space around; both ends at least 1 and `start <= end`.
pub open spec fn line_range_spec(raw: Seq<char>) -> Option<(nat, nat)> {
    let r = strip_line_marker(trimmed(raw));
    if r.len() == 0 {
        None
    } else {
        match split_range_spec(r) {
            None => match parsed_usize(r) {
                Some(n) => if n == 0 {
                    None
                } else {
                    Some((n, n))
                },
                None => None,
            },
            Some((a, b)) => if a.len() == 0 || b.len() == 0 {
                None
            } else {
                match (parsed_usize(trimmed(a)), parsed_usize(strip_line_marker(trimmed(b)))) {
                    (Some(x), Some(y)) => if x == 0 || y == 0 || y < x {
                        None
                    } else {
                        Some((x, y))
                    },
                    _ => None,
                }
            },
        }
    }
}

/// The line range that `raw` denotes, if it denotes one.
pub fn parse_line_range(raw: &str) -> (r: Option<LineRange>)
    ensures
        r matches Some(lr) ==> line_range_spec(raw@) == Some((lr.start as nat, lr.end as nat)),
        r is None ==> line_range_spec(raw@) is None,
{
    let v = chars_of(raw);
    let t = trim(&v);
    let r = strip_marker_chars(&t);
    if r.len() == 0 {
        return None;
    }
    match split_range_chars(&r) {
        None => {
            let line = parse_usize(&r)?;
            if line == 0 {
                return None;
            }
            Some(LineRange { start: line, end: line })
        },
        Some((a, b)) => {
            if a.len() == 0 || b.len() == 0 {
                return None;
            }
            let a = trim(&a);
            let b = trim(&b);
            let start = parse_usize(&a)?;
            let b = strip_marker_chars(&b);
            let end = parse_usize(&b)?;
            if start == 0 || end == 0 || end < start {
                return None;
            }
            Some(LineRange { start, end })
        },
    }
}

} // verus!

verus! {

/// Why a line range could not be read.
#[derive(Debug, Clone, PartialEq, Eq)]
pub enum LineSpecError {
    /// A `#L` suffix with nothing before it.
    MissingPath,
    /// A `#L` suffix with nothing after it.
    MissingRange,
    /// The text after a `#L` suffix, which is no line range.
    InvalidSuffixRange(String),
    /// A `--lines` argument, which is no line range.
    InvalidRange(String),
}

/// `#` followed by `m` stands at `i` in `s`.
pub open spec fn marker_at(s: Seq<char>, m: char, i: int) -> bool {
    0 <= i && i + 1 < s.len() && s[i] == '#' && s[i + 1] == m
}

/// The marker at `i` is the last one in `s`.
pub open spec fn last_marker_at(s: Seq<char>, m: char, i: int) -> bool {
    marker_at(s, m, i) && forall|j: int| i < j ==> !#[trigger] marker_at(s, m, j)
}

/// `s` split around its last `#m`, as `str::rsplit_once` gives it.
pub open spec fn rsplit_marker_spec(s: Seq<char>, m: char) -> Option<(Seq<char>, Seq<char>)> {
    if exists|i: int| last_marker_at(s, m, i) {
        let i = choose|i: int| last_marker_at(s, m, i);
        Some((s.take(i), s.skip(i + 2)))
    } else {
        None
    }
}

/// `s` split around its last `#L`, or, when it has none, its last `#l`.
pub open spec fn line_suffix_split(s: Seq<char>) -> Option<(Seq<char>, Seq<char>)> {
    match rsplit_marker_spec(s, 'L') {
        Some(p) => Some(p),
        None => rsplit_marker_spec(s, 'l'),
    }
}

fn rsplit_marker_chars(v: &[char], m: char) -> (r: Option<(Vec<char>, Vec<char>)>)
    ensures
        r matches Some((a, b)) ==> rsplit_marker_spec(v@, m) == Some((a@, b@)),
        r is None ==> rsplit_marker_spec(v@, m) is None,
{
    let mut k: usize = v.len();
    while k >= 2
        invariant
            k <= v@.len(),
            forall|j: int| k - 1 <= j ==> !#[trigger] marker_at(v@, m, j),
        decreases k,
    {
        if v[k - 2] == '#' && v[k - 1] == m {
            let i = k - 2;
            assert(last_marker_at(v@, m, i as int));
            proof {
                let j = choose|j: int| last_marker_at(v@, m, j);
                if j < i {
                    assert(!marker_at(v@, m, i as int));
                }
                if j > i {
                    assert(!marker_at(v@, m, j));
                }
            }
            let a = copy_range(v, 0, i);
            let b = copy_range(v, k, v.len());
            assert(a@ =~= v@.take(i as int));
            assert(b@ =~= v@.skip(i + 2));
            return Some((a, b));
        }
        k = k - 1;
    }
    assert forall|j: int| !last_marker_at(v@, m, j) by {
        if 0 <= j {
            assert(!marker_at(v@, m, j));
        }
    }
    None
}

/// What reading a `path#L<range>` suffix from `raw` gives.
pub enum SuffixOutcome {
    NoSuffix,
    MissingPath,
    MissingRange,
    InvalidRange(Seq<char>),
    Range(Seq<char>, nat, nat),
}

/// The outcome of reading a line-range suffix from `raw`.
pub open spec fn suffix_outcome(raw: Seq<char>) -> SuffixOutcome {
    match line_suffix_split(raw) {
        None => SuffixOutcome::NoSuffix,
        Some((path, range)) => if path.len() == 0 {
            SuffixOutcome::MissingPath
        } else if range.len() == 0 {
            SuffixOutcome::MissingRange
        } else {
            match line_range_spec(range) {
                None => SuffixOutcome::InvalidRange(range),
                Some((start, end)) => SuffixOutcome::Range(path, start, end),
            }
        },
    }
}

/// Reads a `path#L<range>` (or `path#l<range>`) suffix from `raw`.
pub fn parse_line_range_suffix(raw: &str) -> (r: Result<Option<(String, LineRange)>, LineSpecError>)
    ensures
        match suffix_outcome(raw@) {
            SuffixOutcome::NoSuffix => r matches Ok(None),
            SuffixOutcome::MissingPath => r matches Err(LineSpecError::MissingPath),
            SuffixOutcome::MissingRange => r matches Err(LineSpecError::MissingRange),
            SuffixOutcome::InvalidRange(q) => r matches Err(LineSpecError::InvalidSuffixRange(s))
                && s@ == q,
            SuffixOutcome::Range(p, start, end) => r matches Ok(Some((path, lr))) && path@ == p
                && lr.start == start && lr.end == end,
        },
{
    let v = chars_of(raw);
    let split = match rsplit_marker_chars(&v, 'L') {
        Some(p) => Some(p),
        None => rsplit_marker_chars(&v, 'l'),
    };
    let (path_part, range_part) = match split {
        Some(parts) => parts,
        None => return Ok(None),
    };
    if path_part.len() == 0 {
        return Err(LineSpecError::MissingPath);
    }
    if range_part.len() == 0 {
        return Err(LineSpecError::MissingRange);
    }
    let range_text = string_from_chars(&range_part);
    match parse_line_range(range_text.as_str()) {
        None => Err(LineSpecError::InvalidSuffixRange(range_text)),
        Some(line_range) => Ok(Some((string_from_chars(&path_part), line_range))),
    }
}

/// Reads the argument of `--lines`.
pub fn parse_line_range_arg(raw: &str) -> (r: Result<LineRange, LineSpecError>)
    ensures
        match line_range_spec(raw@) {
            Some((start, end)) => r matches Ok(lr) && lr.start == start && lr.end == end,
            None => r matches Err(LineSpecError::InvalidRange(s)) && s@ == raw@,
        },
{
    match parse_line_range(raw) {
        Some(lr) => Ok(lr),
        None => Err(LineSpecError::InvalidRange(raw.to_owned())),
    }
}

/// A file to show, and the lines of it to show.
#[derive(Debug, Clone, PartialEq, Eq)]
pub struct FileSpec {
    pub path: String,
    pub line_range: Option<LineRange>,
}

/// Splits an optional `#L<range>` suffix off `path`; without one, the file
/// gets `default_range`.
pub fn parse_file_spec(path: String, default_range: Option<LineRange>) -> (r: Result<
    FileSpec,
    LineSpecError,
>)
    ensures
        match suffix_outcome(path@) {
            SuffixOutcome::NoSuffix => r matches Ok(fs) && fs.path@ == path@ && fs.line_range
                == default_range,
            SuffixOutcome::MissingPath => r matches Err(LineSpecError::MissingPath),
            SuffixOutcome::MissingRange => r matches Err(LineSpecError::MissingRange),
            SuffixOutcome::InvalidRange(q) => r matches Err(LineSpecError::InvalidSuffixRange(s))
                && s@ == q,
            SuffixOutcome::Range(p, start, end) => r matches Ok(fs) && fs.path@ == p
                && fs.line_range == Some(LineRange { start: start as usize, end: end as usize }),
        },
{
    match parse_line_range_suffix(path.as_str()) {
        Ok(Some((path_part, line_range))) => Ok(FileSpec { path: path_part, line_range: Some(line_range) }),
        Ok(None) => Ok(FileSpec { path, line_range: default_range }),
        Err(e) => Err(e),
    }
}

/// `p` names the same path as `-` (standard input): its components are
/// exactly `-`, once repeated separators, a trailing separator and `.`
/// components after the first are set aside.
pub open spec fn is_stdin_path_spec(p: Seq<char>) -> bool {
    p.len() >= 1 && p[0] == '-' && forall|i: int|
        1 <= i < p.len() ==> (#[trigger] p[i] == '/' || (p[i] == '.' && p[i - 1] == '/' && (i + 1
            == p.len() || p[i + 1] == '/')))
}

/// Whether `path` denotes standard input.
pub fn is_stdin_path(path: &str) -> (r: bool)
    ensures
        r == is_stdin_path_spec(path@),
{
    let v = chars_of(path);
    if v.len() == 0 || v[0] != '-' {
        return false;
    }
    let mut i: usize = 1;
    while i < v.len()
        invariant
            1 <= i <= v@.len(),
            v@ == path@,
            v@[0] == '-',
            forall|j: int|
                1 <= j < i ==> (#[trigger] v@[j] == '/' || (v@[j] == '.' && v@[j - 1] == '/' && (j
                    + 1 == v@.len() || v@[j + 1] == '/'))),
        decreases v@.len() - i,
    {
        let c = v[i];
        let ok = c == '/' || (c == '.' && v[i - 1] == '/' && (i + 1 == v.len() || v[i + 1] == '/'));
        if !ok {
            assert(v@[i as int] == c);
            assert(!(v@[i as int] == '/' || (v@[i as int] == '.' && v@[i - 1] == '/' && (i + 1
                == v@.len() || v@[i + 1] == '/'))));
            assert(!is_stdin_path_spec(v@)) by {
                if is_stdin_path_spec(v@) {
                    let k = i as int;
                    assert(1 <= k < v@.len());
                    assert(v@[k] == '/' || (v@[k] == '.' && v@[k - 1] == '/' && (k + 1 == v@.len()
                        || v@[k + 1] == '/')));
                }
            }
            return false;
        }
        i = i + 1;
    }
    true
}

/// The name shown in the header above a file.
pub fn display_name_for_spec(spec: &FileSpec) -> (r: String)
    ensures
        is_stdin_path_spec(spec.path@) ==> r@ == seq!['-'],
        !is_stdin_path_spec(spec.path@) ==> r@ == spec.path@,
{
    if is_stdin_path(spec.path.as_str()) {
        let mut v: Vec<char> = Vec::new();
        v.push('-');
        string_from_chars(&v)
    } else {
        spec.path.clone()
    }
}

} // verus!

verus! {

/// `start` and `end` in decimal around `sep`, with an `L` before `end` when
/// `end_marker` is set.
pub open spec fn written_range(start: nat, end: nat, sep: char, end_marker: bool) -> Seq<char> {
    crate::numbering::decimal_digits(start) + seq![sep] + (if end_marker {
        seq!['L']
    } else {
        Seq::<char>::empty()
    }) + crate::numbering::decimal_digits(end)
}

proof fn lemma_decimal_digits(n: nat)
    ensures
        crate::numbering::decimal_digits(n).len() >= 1,
        all_digits(crate::numbering::decimal_digits(n)),
        digits_value(crate::numbering::decimal_digits(n)) == n,
    decreases n,
{
    let d = crate::numbering::decimal_digits(n);
    if n < 10 {
        assert(d.drop_last() =~= Seq::<char>::empty());
        assert(d.last() as int == 48 + n);
        assert(digits_value(d) == digits_value(d.drop_last()) * 10 + ((d.last() as int) - 48) as nat);
        assert(digits_value(Seq::<char>::empty()) == 0);
    } else {
        lemma_decimal_digits(n / 10);
        assert(d.drop_last() =~= crate::numbering::decimal_digits(n / 10));
        assert(d.last() as int == 48 + n % 10);
        assert(n == (n / 10) * 10 + n % 10);
        assert(digits_value(d) == digits_value(d.drop_last()) * 10 + ((d.last() as int) - 48) as nat);
        assert forall|i: int| 0 <= i < d.len() implies is_digit(#[trigger] d[i]) by {
            if i < d.len() - 1 {
                assert(d[i] == crate::numbering::decimal_digits(n / 10)[i]);
            }
        }
    }
}

/// A nonempty run of digits is unchanged by trimming and by dropping a
/// leading line marker, and reads as its value.
proof fn lemma_digits_read(d: Seq<char>)
    requires
        d.len() >= 1,
        all_digits(d),
    ensures
        trimmed(d) == d,
        strip_line_marker(d) == d,
        parsed_usize(d) == (if digits_value(d) <= usize::MAX {
            Some(digits_value(d))
        } else {
            None::<nat>
        }),
{
    assert(is_digit(d[0]));
    assert(is_digit(d.last()));
    lemma_trimmed_unchanged(d);
}

/// A sequence whose ends are no white space is its own trim.
proof fn lemma_trimmed_unchanged(s: Seq<char>)
    requires
        s.len() >= 1,
        !crate::chars::is_white_space_spec(s[0]),
        !crate::chars::is_white_space_spec(s.last()),
    ensures
        trimmed(s) == s,
{
    assert(crate::chars::trim_start(s) == s);
    assert(crate::chars::trim_end(s) == s);
}

/// `s` splits at its only `c`, at `k`.
proof fn lemma_split_once_at(s: Seq<char>, c: char, k: int)
    requires
        0 <= k < s.len(),
        s[k] == c,
        forall|j: int| 0 <= j < s.len() && j != k ==> s[j] != c,
    ensures
        split_once_spec(s, c) == Some((s.take(k), s.skip(k + 1))),
{
    assert(first_at(s, c, k));
    let i = choose|i: int| first_at(s, c, i);
    assert(first_at(s, c, i));
    assert(i == k);
}

/// `s` holds no `c` at all.
proof fn lemma_split_once_none(s: Seq<char>, c: char)
    requires
        forall|j: int| 0 <= j < s.len() ==> s[j] != c,
    ensures
        split_once_spec(s, c) is None,
{
    assert forall|i: int| !first_at(s, c, i) by {
        if 0 <= i < s.len() {
            assert(s[i] != c);
        }
    }
}

/// Every range written as `start-end`, `start:end` or `start,end`, with or
/// without an `L` before `end`, where `1 <= start <= end` and `end` fits in
/// `usize`, is read back as that range.
#[verifier::rlimit(30)]
pub proof fn law_written_range_reads_back(start: nat, end: nat, sep: char, end_marker: bool)
    requires
        1 <= start <= end <= usize::MAX,
        sep == '-' || sep == ':' || sep == ',',
    ensures
        line_range_spec(written_range(start, end, sep, end_marker)) == Some((start, end)),
{
    let a = crate::numbering::decimal_digits(start);
    let e = crate::numbering::decimal_digits(end);
    let m = if end_marker {
        seq!['L']
    } else {
        Seq::<char>::empty()
    };
    let b = m + e;
    let w = written_range(start, end, sep, end_marker);
    lemma_decimal_digits(start);
    lemma_decimal_digits(end);
    lemma_digits_read(a);
    lemma_digits_read(e);
    assert(w =~= a + seq![sep] + b);
    let k = a.len() as int;
    assert(w[0] == a[0]);
    assert(is_digit(a[0]));
    assert(w.last() == e.last());
    assert(is_digit(e.last()));
    lemma_trimmed_unchanged(w);
    assert(strip_line_marker(w) == w);
    assert forall|j: int| 0 <= j < w.len() && j != k implies (w[j] == 'L' || is_digit(
        #[trigger] w[j],
    )) by {
        if j < k {
            assert(w[j] == a[j]);
        } else if end_marker && j == k + 1 {
            assert(w[j] == 'L');
        } else {
            assert(w[j] == e[j - k - 1 - m.len()]);
        }
    }
    if sep == '-' {
        lemma_split_once_at(w, '-', k);
    } else {
        lemma_split_once_none(w, '-');
        if sep == ':' {
            lemma_split_once_at(w, ':', k);
        } else {
            lemma_split_once_none(w, ':');
            lemma_split_once_at(w, ',', k);
        }
    }
    assert(w.take(k) =~= a);
    assert(w.skip(k + 1) =~= b);
    assert(split_range_spec(w) == Some((a, b)));
    assert(b.last() == e.last());
    assert(b[0] == 'L' || is_digit(b[0])) by {
        if !end_marker {
            assert(b[0] == e[0]);
        }
    }
    lemma_trimmed_unchanged(b);
    if end_marker {
        assert(b.drop_first() =~= e);
    } else {
        assert(b =~= e);
    }
    assert(strip_line_marker(trimmed(b)) == e);
}

/// Every line number from 1 up to `usize::MAX`, written in decimal, is read
/// back as the range of that one line.
pub proof fn law_written_line_reads_back(n: nat)
    requires
        1 <= n <= usize::MAX,
    ensures
        line_range_spec(crate::numbering::decimal_digits(n)) == Some((n, n)),
{
    let d = crate::numbering::decimal_digits(n);
    lemma_decimal_digits(n);
    lemma_digits_read(d);
    assert forall|j: int| 0 <= j < d.len() implies is_digit(#[trigger] d[j]) by {}
    lemma_split_once_none(d, '-');
    lemma_split_once_none(d, ':');
    lemma_split_once_none(d, ',');
}

/// `path#L` followed by a written range, for any nonempty `path`, names
/// that path and that range.
pub proof fn law_line_suffix_reads_back(
    path: Seq<char>,
    start: nat,
    end: nat,
    sep: char,
    end_marker: bool,
)
    requires
        path.len() >= 1,
        1 <= start <= end <= usize::MAX,
        sep == '-' || sep == ':' || sep == ',',
    ensures
        suffix_outcome(path + seq!['#', 'L'] + written_range(start, end, sep, end_marker))
            == SuffixOutcome::Range(path, start, end),
{
    let w = written_range(start, end, sep, end_marker);
    let x = path + seq!['#', 'L'] + w;
    let k = path.len() as int;
    law_written_range_reads_back(start, end, sep, end_marker);
    lemma_decimal_digits(start);
    lemma_decimal_digits(end);
    let a = crate::numbering::decimal_digits(start);
    let e = crate::numbering::decimal_digits(end);
    assert forall|j: int| 0 <= j < w.len() implies #[trigger] w[j] != '#' by {
        if j < a.len() {
            assert(w[j] == a[j]);
            assert(is_digit(a[j]));
        } else if j == a.len() {
        } else if end_marker && j == a.len() + 1 {
        } else {
            let m: int = if end_marker {
                1
            } else {
                0
            };
            assert(w[j] == e[j - a.len() - 1 - m]);
            assert(is_digit(e[j - a.len() - 1 - m]));
        }
    }
    assert(marker_at(x, 'L', k));
    assert forall|j: int| k < j implies !#[trigger] marker_at(x, 'L', j) by {
        if j == k + 1 {
            assert(x[j] == 'L');
        } else if k + 2 <= j < x.len() {
            assert(x[j] == w[j - k - 2]);
        }
    }
    assert(last_marker_at(x, 'L', k));
    let i = choose|i: int| last_marker_at(x, 'L', i);
    assert(last_marker_at(x, 'L', i));
    if i < k {
        assert(marker_at(x, 'L', k));
    }
    assert(i == k);
    assert(x.take(k) =~= path);
    assert(x.skip(k + 2) =~= w);
    assert(line_suffix_split(x) == Some((path, w)));
}

} // verus!
