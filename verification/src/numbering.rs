use vstd::prelude::*;

use vstd::utf8::{
    encode_scalar, encode_utf8, has_width_1_encoding, last_continuation_byte, leading_byte_width_1,
    leading_byte_width_2, leading_byte_width_3, leading_byte_width_4, second_last_continuation_byte,
    third_last_continuation_byte,
};

use crate::lines::{byte_lines, NEWLINE};
use crate::text::{
    concat_all, count_of, free_of, lemma_split_lines_len, lemma_split_lines_step, lemma_split_lines_tail,
};

verus! {

/// Decimal digits of `n`, most significant first, as ASCII characters.
pub open spec fn decimal_digits(n: nat) -> Seq<char>
    decreases n,
{
    if n < 10 {
        seq![(48 + n) as char]
    } else {
        decimal_digits(n / 10).push((48 + n % 10) as char)
    }
}

/// `n` spaces.
pub open spec fn spaces(n: nat) -> Seq<char> {
    Seq::new(n, |i: int| ' ')
}

/// The ASCII bytes of a sequence of ASCII characters.
pub open spec fn ascii_bytes(s: Seq<char>) -> Seq<u8> {
    Seq::new(s.len(), |i: int| s[i] as u8)
}

/// The margin in front of line `line_no`: the number right-aligned in a
/// field of `width` characters, then two spaces.
pub open spec fn line_prefix(line_no: nat, width: nat) -> Seq<char> {
    let d = decimal_digits(line_no);
    let pad = if width > d.len() {
        (width - d.len()) as nat
    } else {
        0nat
    };
    spaces(pad) + d + spaces(2)
}

/// Width of the line-number column for numbers up to `last`.
pub open spec fn number_width(last: nat) -> nat {
    decimal_digits(last).len()
}

/// Number of decimal digits needed to print `line_count`.
pub fn line_number_width(line_count: usize) -> (w: usize)
    ensures
        w == number_width(line_count as nat),
        1 <= w <= 20,
{
    proof {
        lemma_digits_fit(line_count as nat);
    }
    let mut n = line_count;
    let mut width: usize = 1;
    while n >= 10
        invariant
            width + decimal_digits(n as nat).len() - 1 == decimal_digits(line_count as nat).len(),
            decimal_digits(line_count as nat).len() <= 20,
            width >= 1,
        decreases n,
    {
        n = n / 10;
        width = width + 1;
    }
    width
}

/// `10^k`.
pub open spec fn pow10(k: nat) -> nat
    decreases k,
{
    if k == 0 {
        1
    } else {
        10 * pow10((k - 1) as nat)
    }
}

proof fn lemma_digits_len_bound(m: nat, k: nat)
    requires
        k >= 1,
        m < pow10(k),
    ensures
        decimal_digits(m).len() <= k,
    decreases k,
{
    if m >= 10 {
        if k == 1 {
            assert(pow10(1) == 10) by {
                reveal_with_fuel(pow10, 2);
            }
        } else {
            lemma_digits_len_bound(m / 10, (k - 1) as nat);
        }
    }
}

/// Every machine-sized number has at most twenty decimal digits.
proof fn lemma_digits_fit(m: nat)
    requires
        m <= usize::MAX,
    ensures
        1 <= decimal_digits(m).len() <= 20,
{
    reveal_with_fuel(pow10, 21);
    assert(pow10(20) == 100000000000000000000nat);
    lemma_digits_len_bound(m, 20);
}

/// Appends the decimal digits of `n` to `out`.
fn push_decimal(out: &mut Vec<u8>, n: usize)
    ensures
        final(out)@ == old(out)@ + ascii_bytes(decimal_digits(n as nat)),
    decreases n,
{
    if n >= 10 {
        push_decimal(out, n / 10);
    }
    let ghost before = out@;
    out.push(48u8 + (n % 10) as u8);
    proof {
        let d = decimal_digits(n as nat);
        if n >= 10 {
            let e = decimal_digits(n as nat / 10);
            assert(ascii_bytes(d) =~= ascii_bytes(e).push((48 + n % 10) as u8));
            assert(out@ =~= old(out)@ + ascii_bytes(e).push((48 + n % 10) as u8));
        } else {
            assert(ascii_bytes(d) =~= seq![(48 + n) as u8]);
            assert(out@ =~= old(out)@ + ascii_bytes(d));
        }
    }
}

/// Appends `n` spaces to `out`.
fn push_spaces(out: &mut Vec<u8>, n: usize)
    ensures
        final(out)@ == old(out)@ + ascii_bytes(spaces(n as nat)),
{
    let mut k: usize = 0;
    while k < n
        invariant
            k <= n,
            out@ == old(out)@ + ascii_bytes(spaces(k as nat)),
        decreases n - k,
    {
        out.push(32u8);
        assert(ascii_bytes(spaces((k + 1) as nat)) =~= ascii_bytes(spaces(k as nat)).push(32u8));
        k = k + 1;
    }
}

/// Appends the margin for line `line_no` in a column of `width` characters.
pub fn write_prefix(out: &mut Vec<u8>, line_no: usize, width: usize)
    ensures
        final(out)@ == old(out)@ + ascii_bytes(line_prefix(line_no as nat, width as nat)),
{
    let digits = line_number_width(line_no);
    let pad = if width > digits {
        width - digits
    } else {
        0
    };
    push_spaces(out, pad);
    push_decimal(out, line_no);
    push_spaces(out, 2);
    proof {
        let d = decimal_digits(line_no as nat);
        let pad_s = spaces(pad as nat);
        assert(ascii_bytes(pad_s + d + spaces(2)) =~= ascii_bytes(pad_s) + ascii_bytes(d)
            + ascii_bytes(spaces(2)));
    }
}

/// The lines `ls`, the first of them numbered `first`, each preceded by its
/// margin in a column of `width` characters.
pub open spec fn numbered_lines(ls: Seq<Seq<u8>>, first: nat, width: nat) -> Seq<u8>
    decreases ls.len(),
{
    if ls.len() == 0 {
        seq![]
    } else {
        numbered_lines(ls.drop_last(), first, width) + ascii_bytes(
            line_prefix((first + ls.len() - 1) as nat, width),
        ) + ls.last()
    }
}

/// Width of the number column when `count` lines are numbered from `first`.
pub open spec fn numbering_width(first: nat, count: nat) -> nat {
    if count == 0 {
        1
    } else {
        number_width(
            if first + count - 1 <= usize::MAX {
                (first + count - 1) as nat
            } else {
                usize::MAX as nat
            },
        )
    }
}

/// Appends `bytes` to `out` with each line preceded by its number, counting
/// from `line_number_start`.
pub fn write_numbered_bytes(out: &mut Vec<u8>, bytes: &[u8], line_number_start: usize)
    requires
        line_number_start + byte_lines(bytes@).len() <= usize::MAX + 1,
    ensures
        final(out)@ == old(out)@ + numbered_lines(
            byte_lines(bytes@),
            line_number_start as nat,
            numbering_width(line_number_start as nat, byte_lines(bytes@).len()),
        ),
{
    let line_count = crate::lines::count_lines_bytes(bytes);
    if line_count == 0 {
        assert(numbered_lines(byte_lines(bytes@), line_number_start as nat, 1) =~= Seq::<u8>::empty());
        assert(old(out)@ + Seq::<u8>::empty() =~= old(out)@);
        return;
    }
    let last_line_no = line_number_start.saturating_add(line_count - 1);
    let width = line_number_width(last_line_no);
    let ghost w = width as nat;
    let ghost first = line_number_start as nat;
    let mut line_no = line_number_start;
    write_prefix(out, line_no, width);
    let mut start: usize = 0;
    let mut i: usize = 0;
    while i < bytes.len()
        invariant
            bytes@.len() > 0,
            line_number_start + byte_lines(bytes@).len() <= usize::MAX + 1,
            w == width,
            first == line_number_start,
            start <= i <= bytes@.len(),
            start == 0 || bytes@[start - 1] == NEWLINE,
            free_of(bytes@, NEWLINE, start as int, i as int),
            start < bytes@.len() ==> line_no == first + byte_lines(bytes@.take(start as int)).len(),
            start == bytes@.len() ==> line_no + 1 == first + byte_lines(bytes@.take(start as int)).len(),
            start < bytes@.len() ==> out@ == old(out)@ + numbered_lines(
                byte_lines(bytes@.take(start as int)),
                first,
                w,
            ) + ascii_bytes(line_prefix(line_no as nat, w)) + bytes@.subrange(
                start as int,
                i as int,
            ),
            start == bytes@.len() ==> out@ == old(out)@ + numbered_lines(
                byte_lines(bytes@.take(start as int)),
                first,
                w,
            ),
        decreases bytes@.len() - i,
    {
        let byte = bytes[i];
        out.push(byte);
        let ghost pre = old(out)@ + numbered_lines(byte_lines(bytes@.take(start as int)), first, w)
            + ascii_bytes(line_prefix(line_no as nat, w));
        assert(bytes@.subrange(start as int, i + 1) =~= bytes@.subrange(start as int, i as int).push(
            byte,
        ));
        assert(out@ =~= pre + bytes@.subrange(start as int, i + 1));
        if byte == NEWLINE {
            proof {
                lemma_split_lines_step(bytes@, NEWLINE, start as int, i as int);
                let old_lines = byte_lines(bytes@.take(start as int));
                let new_lines = byte_lines(bytes@.take(i + 1));
                assert(new_lines.drop_last() =~= old_lines);
                assert(numbered_lines(new_lines, first, w) == numbered_lines(old_lines, first, w)
                    + ascii_bytes(line_prefix(line_no as nat, w)) + bytes@.subrange(
                    start as int,
                    i + 1,
                ));
                lemma_count_bound(bytes@, start as int, i as int);
            }
            start = i + 1;
            if i + 1 < bytes.len() {
                line_no = line_no + 1;
                write_prefix(out, line_no, width);
                assert(bytes@.subrange(start as int, start as int) =~= Seq::<u8>::empty());
            }
        }
        i = i + 1;
    }
    proof {
        lemma_split_lines_tail(bytes@, NEWLINE, start as int);
        if start < bytes@.len() {
            let old_lines = byte_lines(bytes@.take(start as int));
            let all = byte_lines(bytes@);
            assert(all.drop_last() =~= old_lines);
            assert(bytes@.subrange(start as int, bytes@.len() as int) =~= bytes@.skip(start as int));
        }
        lemma_numbering_width(first, byte_lines(bytes@).len(), line_count, last_line_no);
    }
}

proof fn lemma_count_bound(s: Seq<u8>, start: int, i: int)
    requires
        0 <= start <= i < s.len(),
        s[i] == NEWLINE,
    ensures
        i + 1 < s.len() ==> byte_lines(s.take(i + 1)).len() < byte_lines(s).len(),
{
    if i + 1 < s.len() {
        let p = s.take(i + 1);
        let q = s.skip(i + 1);
        assert(s =~= p + q);
        assert(p.last() == NEWLINE);
        crate::text::lemma_split_lines_append(p, q, NEWLINE);
        crate::text::lemma_first_line_end_props(q, NEWLINE);
    }
}

proof fn lemma_numbering_width(first: nat, count: nat, line_count: usize, last: usize)
    requires
        count == line_count,
        count > 0,
        last as nat == (if first + count - 1 <= usize::MAX {
            (first + count - 1) as nat
        } else {
            usize::MAX as nat
        }),
    ensures
        numbering_width(first, count) == number_width(last as nat),
{
}

} // verus!

verus! {

/// Lines of a text; each keeps its line feed when it has one.
pub open spec fn text_lines(text: Seq<char>) -> Seq<Seq<char>> {
    crate::text::split_lines(text, '\n')
}

/// A line as it is printed: shown with visible unprintable characters when
/// `show_all` is set, unchanged otherwise.
pub open spec fn line_content(l: Seq<char>, show_all: bool) -> Seq<char> {
    if show_all {
        crate::unprintable::shown_unprintable(l)
    } else {
        l
    }
}

/// The lines `ls`, the first numbered `first`, each behind its margin.
pub open spec fn numbered_text(ls: Seq<Seq<char>>, first: nat, width: nat, show_all: bool) -> Seq<
    char,
>
    decreases ls.len(),
{
    if ls.len() == 0 {
        seq![]
    } else {
        numbered_text(ls.drop_last(), first, width, show_all) + line_prefix(
            (first + ls.len() - 1) as nat,
            width,
        ) + line_content(ls.last(), show_all)
    }
}

pub(crate) fn push_decimal_chars(out: &mut Vec<char>, n: usize)
    ensures
        final(out)@ == old(out)@ + decimal_digits(n as nat),
    decreases n,
{
    if n >= 10 {
        push_decimal_chars(out, n / 10);
    }
    let d = (48u8 + (n % 10) as u8) as char;
    out.push(d);
    proof {
        if n >= 10 {
            assert(out@ =~= old(out)@ + decimal_digits(n as nat / 10).push((48 + n % 10) as char));
        } else {
            assert(out@ =~= old(out)@ + decimal_digits(n as nat));
        }
    }
}

pub(crate) fn push_spaces_chars(out: &mut Vec<char>, n: usize)
    ensures
        final(out)@ == old(out)@ + spaces(n as nat),
{
    let mut k: usize = 0;
    while k < n
        invariant
            k <= n,
            out@ == old(out)@ + spaces(k as nat),
        decreases n - k,
    {
        out.push(' ');
        assert(spaces((k + 1) as nat) =~= spaces(k as nat).push(' '));
        k = k + 1;
    }
}

/// Appends the margin for line `line_no` in a column of `width` characters.
fn push_prefix_chars(out: &mut Vec<char>, line_no: usize, width: usize)
    ensures
        final(out)@ == old(out)@ + line_prefix(line_no as nat, width as nat),
{
    let digits = line_number_width(line_no);
    let pad = if width > digits {
        width - digits
    } else {
        0
    };
    push_spaces_chars(out, pad);
    push_decimal_chars(out, line_no);
    push_spaces_chars(out, 2);
}

fn count_text_lines(v: &[char]) -> (n: usize)
    ensures
        n == text_lines(v@).len(),
{
    let mut count: usize = 0;
    let mut start: usize = 0;
    let mut i: usize = 0;
    while i < v.len()
        invariant
            start <= i <= v@.len(),
            start == 0 || v@[start - 1] == '\n',
            free_of(v@, '\n', start as int, i as int),
            count == text_lines(v@.take(start as int)).len(),
            count <= start,
        decreases v@.len() - i,
    {
        if v[i] == '\n' {
            proof {
                lemma_split_lines_step(v@, '\n', start as int, i as int);
            }
            count = count + 1;
            start = i + 1;
        }
        i = i + 1;
    }
    proof {
        lemma_split_lines_tail(v@, '\n', start as int);
    }
    if start < v.len() {
        count + 1
    } else {
        count
    }
}

/// `text` with each line preceded by its number, counting from
/// `line_number_start`; with `show_all`, unprintable characters are shown.
pub fn number_plain_text(text: &str, line_number_start: usize, show_all: bool) -> (r: String)
    requires
        line_number_start + text_lines(text@).len() <= usize::MAX,
    ensures
        r@ == numbered_text(
            text_lines(text@),
            line_number_start as nat,
            numbering_width(line_number_start as nat, text_lines(text@).len()),
            show_all,
        ),
{
    let v = crate::chars::chars_of(text);
    let line_count = count_text_lines(&v);
    if line_count == 0 {
        return String::new();
    }
    let last_line_no = line_number_start.saturating_add(line_count - 1);
    let width = line_number_width(last_line_no);
    let ghost w = width as nat;
    let ghost first = line_number_start as nat;
    let mut out: Vec<char> = Vec::new();
    let mut line_no = line_number_start;
    let mut start: usize = 0;
    let mut i: usize = 0;
    while i < v.len()
        invariant
            line_number_start + text_lines(v@).len() <= usize::MAX,
            w == width,
            first == line_number_start,
            start <= i <= v@.len(),
            start == 0 || v@[start - 1] == '\n',
            free_of(v@, '\n', start as int, i as int),
            line_no == first + text_lines(v@.take(start as int)).len(),
            start < i ==> out@ == numbered_text(text_lines(v@.take(start as int)), first, w, show_all)
                + line_prefix(line_no as nat, w) + line_content(
                v@.subrange(start as int, i as int),
                show_all,
            ),
            start == i ==> out@ == numbered_text(
                text_lines(v@.take(start as int)),
                first,
                w,
                show_all,
            ),
        decreases v@.len() - i,
    {
        proof {
            crate::text::lemma_split_lines_len(v@.take(start as int), '\n');
        }
        if i == start {
            push_prefix_chars(&mut out, line_no, width);
            assert(v@.subrange(start as int, i as int) =~= Seq::<char>::empty());
            assert(crate::unprintable::shown_unprintable(Seq::<char>::empty()) =~= Seq::<char>::empty());
        }
        let c = v[i];
        let ghost before = out@;
        if show_all {
            crate::unprintable::push_visible(&mut out, c);
        } else {
            out.push(c);
        }
        proof {
            lemma_line_content_push(v@.subrange(start as int, i as int), c, show_all);
            assert(v@.subrange(start as int, i + 1) =~= v@.subrange(start as int, i as int).push(c));
        }
        if c == '\n' {
            proof {
                lemma_split_lines_step(v@, '\n', start as int, i as int);
                lemma_numbered_text_push(
                    text_lines(v@.take(start as int)),
                    v@.subrange(start as int, i + 1),
                    first,
                    w,
                    show_all,
                );
                lemma_lines_before_end(v@, i as int);
            }
            start = i + 1;
            line_no = line_no + 1;
        }
        i = i + 1;
    }
    proof {
        lemma_split_lines_tail(v@, '\n', start as int);
        if start < v@.len() {
            assert(v@.subrange(start as int, v@.len() as int) =~= v@.skip(start as int));
            lemma_numbered_text_push(
                text_lines(v@.take(start as int)),
                v@.skip(start as int),
                first,
                w,
                show_all,
            );
        }
    }
    crate::chars::string_from_chars(&out)
}

proof fn lemma_line_content_push(p: Seq<char>, c: char, show_all: bool)
    ensures
        line_content(p.push(c), show_all) == line_content(p, show_all) + (if show_all {
            crate::unprintable::visible(c)
        } else {
            seq![c]
        }),
{
    assert(p.push(c).drop_last() =~= p);
    if !show_all {
        assert(p.push(c) =~= p + seq![c]);
    }
}

proof fn lemma_numbered_text_push(
    ls: Seq<Seq<char>>,
    l: Seq<char>,
    first: nat,
    width: nat,
    show_all: bool,
)
    ensures
        numbered_text(ls.push(l), first, width, show_all) == numbered_text(ls, first, width, show_all)
            + line_prefix(first + ls.len(), width) + line_content(l, show_all),
{
    assert(ls.push(l).drop_last() =~= ls);
}

proof fn lemma_lines_before_end(s: Seq<char>, i: int)
    requires
        0 <= i < s.len(),
        s[i] == '\n',
    ensures
        text_lines(s.take(i + 1)).len() <= text_lines(s).len(),
{
    let p = s.take(i + 1);
    let q = s.skip(i + 1);
    assert(s =~= p + q);
    assert(p.last() == '\n');
    crate::text::lemma_split_lines_append(p, q, '\n');
}

} // verus!

verus! {

proof fn lemma_digits_monotone(n: nat, m: nat)
    requires
        n <= m,
    ensures
        decimal_digits(n).len() <= decimal_digits(m).len(),
    decreases m,
{
    if m >= 10 && n >= 10 {
        lemma_digits_monotone(n / 10, m / 10);
    } else if m >= 10 {
        lemma_digits_nonempty(m);
    }
}

proof fn lemma_digits_nonempty(n: nat)
    ensures
        decimal_digits(n).len() >= 1,
    decreases n,
{
    if n >= 10 {
        lemma_digits_nonempty(n / 10);
    }
}

/// The numbers of lines numbered together stand in one column: the margin
/// of every one of the `count` lines numbered from `first` is as wide as the
/// column plus the two separating spaces.
pub proof fn law_margins_align(first: nat, count: nat, n: nat)
    requires
        count >= 1,
        first <= n,
        n + 1 <= first + count,
        first + count - 1 <= usize::MAX,
    ensures
        line_prefix(n, numbering_width(first, count)).len() == numbering_width(first, count) + 2,
{
    lemma_digits_monotone(n, (first + count - 1) as nat);
}

} // verus!

verus! {

proof fn lemma_encode_append(a: Seq<char>, b: Seq<char>)
    ensures
        encode_utf8(a + b) == encode_utf8(a) + encode_utf8(b),
    decreases a.len(),
{
    if a.len() == 0 {
        assert(a + b =~= b);
        assert(encode_utf8(a) =~= Seq::<u8>::empty());
    } else {
        lemma_encode_append(a.drop_first(), b);
        assert((a + b).drop_first() =~= a.drop_first() + b);
        assert((a + b)[0] == a[0]);
        assert(encode_scalar(a[0] as u32) + (encode_utf8(a.drop_first()) + encode_utf8(b))
            =~= (encode_scalar(a[0] as u32) + encode_utf8(a.drop_first())) + encode_utf8(b));
    }
}

/// No byte of the encoding of a character other than a line feed is a
/// line feed.
proof fn lemma_scalar_not_newline(c: char)
    requires
        c != '\n',
    ensures
        encode_scalar(c as u32).len() >= 1,
        free_of(encode_scalar(c as u32), NEWLINE, 0, encode_scalar(c as u32).len() as int),
{
    let v = c as u32;
    vstd::utf8::char_is_scalar(c);
    vstd::utf8::char_u32_cast(c, v);
    let e = encode_scalar(v);
    if has_width_1_encoding(v) {
        assert(v != 10u32);
        assert(v <= 0x7F && v != 10 ==> leading_byte_width_1(v) != 10u8) by (bit_vector);
        assert(e[0] != NEWLINE);
    } else {
        assert(leading_byte_width_2(v) != 10u8) by (bit_vector);
        assert(leading_byte_width_3(v) != 10u8) by (bit_vector);
        assert(leading_byte_width_4(v) != 10u8) by (bit_vector);
        assert(last_continuation_byte(v) != 10u8) by (bit_vector);
        assert(second_last_continuation_byte(v) != 10u8) by (bit_vector);
        assert(third_last_continuation_byte(v) != 10u8) by (bit_vector);
        assert forall|j: int| 0 <= j < e.len() implies e[j] != NEWLINE by {}
    }
}

proof fn lemma_encode_free(c: Seq<char>)
    requires
        forall|i: int| 0 <= i < c.len() ==> c[i] != '\n',
    ensures
        c.len() > 0 ==> encode_utf8(c).len() > 0,
        free_of(encode_utf8(c), NEWLINE, 0, encode_utf8(c).len() as int),
    decreases c.len(),
{
    if c.len() > 0 {
        lemma_scalar_not_newline(c[0]);
        let rest = c.drop_first();
        lemma_encode_free(rest);
        let e0 = encode_scalar(c[0] as u32);
        let er = encode_utf8(rest);
        let e = encode_utf8(c);
        assert(e == e0 + er);
        assert forall|j: int| 0 <= j < e.len() implies e[j] != NEWLINE by {
            if j < e0.len() {
                assert(e[j] == e0[j]);
            } else {
                assert(e[j] == er[j - e0.len()]);
            }
        }
    }
}

proof fn lemma_encode_newline()
    ensures
        encode_utf8(seq!['\n']) == seq![NEWLINE],
{
    let v = '\n' as u32;
    assert(v == 10u32);
    assert(leading_byte_width_1(10u32) == 10u8) by (bit_vector);
    assert(seq!['\n'].drop_first() =~= Seq::<char>::empty());
    assert(seq!['\n'][0] == '\n');
    assert(has_width_1_encoding(10u32));
    assert(encode_scalar(10u32) =~= seq![10u8]);
    assert(encode_utf8(Seq::<char>::empty()) =~= Seq::<u8>::empty());
    assert(encode_utf8(seq!['\n']) == encode_scalar(10u32) + encode_utf8(Seq::<char>::empty()));
    assert(encode_utf8(seq!['\n']) =~= seq![NEWLINE]);
}

/// The byte lines of encoded text are the encoded text lines.
proof fn lemma_lines_encode(t: Seq<char>)
    ensures
        byte_lines(encode_utf8(t)) == text_lines(t).map_values(|l: Seq<char>| encode_utf8(l)),
    decreases t.len(),
{
    if t.len() == 0 {
        assert(encode_utf8(t) =~= Seq::<u8>::empty());
        assert(text_lines(t).map_values(|l: Seq<char>| encode_utf8(l)) =~= Seq::<Seq<u8>>::empty());
    } else {
        crate::text::lemma_first_line_end_props(t, '\n');
        let k = crate::text::first_line_end(t, '\n');
        let l = t.take(k);
        let rest = t.skip(k);
        lemma_lines_encode(rest);
        assert(t =~= l + rest);
        lemma_encode_append(l, rest);
        let el = encode_utf8(l);
        let er = encode_utf8(rest);
        if t[k - 1] == '\n' {
            let c = l.take(k - 1);
            assert(l =~= c + seq!['\n']);
            lemma_encode_append(c, seq!['\n']);
            lemma_encode_newline();
            assert forall|i: int| 0 <= i < c.len() implies c[i] != '\n' by {
                assert(c[i] == t[i]);
            }
            lemma_encode_free(c);
            assert(el == encode_utf8(c) + seq![NEWLINE]);
            assert forall|j: int| 0 <= j < el.len() - 1 implies el[j] != NEWLINE by {
                assert(el[j] == encode_utf8(c)[j]);
            }
            crate::text::lemma_split_single_line(el, NEWLINE);
            crate::text::lemma_split_lines_append(el, er, NEWLINE);
        } else {
            assert(k == t.len());
            assert(rest.len() == 0);
            assert forall|i: int| 0 <= i < l.len() implies l[i] != '\n' by {
                if i < k - 1 {
                    assert(l[i] == t[i]);
                } else {
                    assert(l[i] == t[k - 1]);
                }
            }
            lemma_encode_free(l);
            crate::text::lemma_split_single_line(el, NEWLINE);
            assert(er =~= Seq::<u8>::empty());
            assert(el + er =~= el);
            assert(byte_lines(er) =~= Seq::<Seq<u8>>::empty());
            assert(text_lines(rest) =~= Seq::<Seq<char>>::empty());
        }
        assert(text_lines(t) == seq![l] + text_lines(rest));
        assert(text_lines(t).map_values(|x: Seq<char>| encode_utf8(x)) =~= seq![el] + text_lines(
            rest,
        ).map_values(|x: Seq<char>| encode_utf8(x)));
    }
}

/// A character below 128 encodes as its own byte.
proof fn lemma_encode_one_ascii(k: nat)
    requires
        k < 128,
    ensures
        encode_utf8(seq![k as char]) == ascii_bytes(seq![k as char]),
{
    let c = k as char;
    let v = c as u32;
    assert(v == k);
    assert(v <= 0x7F ==> leading_byte_width_1(v) == v as u8) by (bit_vector);
    assert(seq![c].drop_first() =~= Seq::<char>::empty());
    assert(seq![c][0] == c);
    assert(encode_utf8(Seq::<char>::empty()) =~= Seq::<u8>::empty());
    assert(encode_utf8(seq![c]) == encode_scalar(v) + encode_utf8(Seq::<char>::empty()));
    assert(encode_utf8(seq![c]) =~= seq![v as u8]);
    assert(ascii_bytes(seq![c]) =~= seq![c as u8]);
    assert(c as u8 == k as u8);
}

proof fn lemma_ascii_bytes_append(a: Seq<char>, b: Seq<char>)
    ensures
        ascii_bytes(a + b) == ascii_bytes(a) + ascii_bytes(b),
{
    assert(ascii_bytes(a + b) =~= ascii_bytes(a) + ascii_bytes(b));
}

proof fn lemma_encode_digits(n: nat)
    ensures
        encode_utf8(decimal_digits(n)) == ascii_bytes(decimal_digits(n)),
    decreases n,
{
    if n < 10 {
        lemma_encode_one_ascii(48 + n);
    } else {
        lemma_encode_digits(n / 10);
        let d = decimal_digits(n / 10);
        let c = (48 + n % 10) as char;
        lemma_encode_one_ascii((48 + n % 10) as nat);
        assert(decimal_digits(n) =~= d + seq![c]);
        lemma_encode_append(d, seq![c]);
        lemma_ascii_bytes_append(d, seq![c]);
    }
}

proof fn lemma_encode_spaces(n: nat)
    ensures
        encode_utf8(spaces(n)) == ascii_bytes(spaces(n)),
    decreases n,
{
    if n == 0 {
        assert(spaces(0) =~= Seq::<char>::empty());
        assert(encode_utf8(spaces(0)) =~= Seq::<u8>::empty());
        assert(ascii_bytes(spaces(0)) =~= Seq::<u8>::empty());
    } else {
        lemma_encode_spaces((n - 1) as nat);
        assert(spaces(n) =~= spaces((n - 1) as nat) + seq![32nat as char]);
        lemma_encode_one_ascii(32);
        lemma_encode_append(spaces((n - 1) as nat), seq![32nat as char]);
        lemma_ascii_bytes_append(spaces((n - 1) as nat), seq![32nat as char]);
    }
}

proof fn lemma_prefix_ascii(n: nat, width: nat)
    ensures
        encode_utf8(line_prefix(n, width)) == ascii_bytes(line_prefix(n, width)),
{
    let d = decimal_digits(n);
    let pad = if width > d.len() {
        (width - d.len()) as nat
    } else {
        0nat
    };
    lemma_encode_spaces(pad);
    lemma_encode_digits(n);
    lemma_encode_spaces(2);
    lemma_encode_append(spaces(pad), d);
    lemma_encode_append(spaces(pad) + d, spaces(2));
    lemma_ascii_bytes_append(spaces(pad), d);
    lemma_ascii_bytes_append(spaces(pad) + d, spaces(2));
}

proof fn lemma_numbered_encode(ls: Seq<Seq<char>>, first: nat, width: nat)
    ensures
        encode_utf8(numbered_text(ls, first, width, false)) == numbered_lines(
            ls.map_values(|l: Seq<char>| encode_utf8(l)),
            first,
            width,
        ),
    decreases ls.len(),
{
    let m = ls.map_values(|l: Seq<char>| encode_utf8(l));
    if ls.len() == 0 {
        assert(encode_utf8(Seq::<char>::empty()) =~= Seq::<u8>::empty());
    } else {
        let init = ls.drop_last();
        lemma_numbered_encode(init, first, width);
        assert(m.drop_last() =~= init.map_values(|l: Seq<char>| encode_utf8(l)));
        assert(m.last() == encode_utf8(ls.last()));
        let n = (first + ls.len() - 1) as nat;
        let a = numbered_text(init, first, width, false);
        lemma_encode_append(a + line_prefix(n, width), ls.last());
        lemma_encode_append(a, line_prefix(n, width));
        lemma_prefix_ascii(n, width);
    }
}

/// On text that is valid UTF-8, numbering its bytes and numbering its
/// characters give the same output: the same lines, the same column width
/// and the same bytes.
pub proof fn law_numbered_bytes_match_numbered_text(t: Seq<char>, first: nat)
    ensures
        ({
            let ls = byte_lines(encode_utf8(t));
            let w = numbering_width(first, ls.len());
            &&& ls.len() == text_lines(t).len()
            &&& numbering_width(first, text_lines(t).len()) == w
            &&& numbered_lines(ls, first, w) == encode_utf8(
                numbered_text(text_lines(t), first, w, false),
            )
        }),
{
    lemma_lines_encode(t);
    let w = numbering_width(first, byte_lines(encode_utf8(t)).len());
    lemma_numbered_encode(text_lines(t), first, w);
}

/// Each line behind its margin, the first numbered `first`.
pub open spec fn margined_lines(ls: Seq<Seq<u8>>, first: nat, width: nat) -> Seq<Seq<u8>> {
    Seq::new(ls.len(), |k: int| ascii_bytes(line_prefix((first + k) as nat, width)) + ls[k])
}

pub(crate) proof fn lemma_numbered_margined(ls: Seq<Seq<u8>>, first: nat, width: nat)
    ensures
        numbered_lines(ls, first, width) == concat_all(margined_lines(ls, first, width)),
    decreases ls.len(),
{
    if ls.len() > 0 {
        lemma_numbered_margined(ls.drop_last(), first, width);
        let m = margined_lines(ls, first, width);
        assert(m.drop_last() =~= margined_lines(ls.drop_last(), first, width));
        assert(m.last() == ascii_bytes(line_prefix((first + ls.len() - 1) as nat, width))
            + ls.last());
        assert(concat_all(m.drop_last()) + (ascii_bytes(
            line_prefix((first + ls.len() - 1) as nat, width),
        ) + ls.last()) =~= concat_all(m.drop_last()) + ascii_bytes(
            line_prefix((first + ls.len() - 1) as nat, width),
        ) + ls.last());
    }
}

/// Numbered output is every line of the input behind its margin, in order:
/// taking the margin off each piece gives the line back, and joining the
/// lines gives the input back.
pub proof fn law_margins_come_off(bytes: Seq<u8>, first: nat, width: nat)
    ensures
        ({
            let ls = byte_lines(bytes);
            let m = margined_lines(ls, first, width);
            &&& numbered_lines(ls, first, width) == concat_all(m)
            &&& forall|k: int|
                0 <= k < m.len() ==> (#[trigger] m[k]).skip(
                    line_prefix((first + k) as nat, width).len() as int,
                ) == ls[k]
            &&& concat_all(ls) == bytes
        }),
{
    let ls = byte_lines(bytes);
    let m = margined_lines(ls, first, width);
    lemma_numbered_margined(ls, first, width);
    crate::text::lemma_concat_split_lines(bytes, NEWLINE);
    assert forall|k: int| 0 <= k < m.len() implies (#[trigger] m[k]).skip(
        line_prefix((first + k) as nat, width).len() as int,
    ) == ls[k] by {
        let p = ascii_bytes(line_prefix((first + k) as nat, width));
        assert(m[k] == p + ls[k]);
        assert((p + ls[k]).skip(p.len() as int) =~= ls[k]);
    }
}

} // verus!

verus! {

pub(crate) proof fn lemma_numbered_text_margined(
    ls: Seq<Seq<char>>,
    first: nat,
    width: nat,
    show_all: bool,
)
    ensures
        numbered_text(ls, first, width, show_all) == concat_all(
            Seq::new(
                ls.len(),
                |k: int| line_prefix((first + k) as nat, width) + line_content(ls[k], show_all),
            ),
        ),
    decreases ls.len(),
{
    let m = Seq::new(
        ls.len(),
        |k: int| line_prefix((first + k) as nat, width) + line_content(ls[k], show_all),
    );
    if ls.len() > 0 {
        let init = ls.drop_last();
        lemma_numbered_text_margined(init, first, width, show_all);
        assert(m.drop_last() =~= Seq::new(
            init.len(),
            |k: int| line_prefix((first + k) as nat, width) + line_content(init[k], show_all),
        ));
        let last = line_prefix((first + ls.len() - 1) as nat, width) + line_content(
            ls.last(),
            show_all,
        );
        assert(m.last() == last);
        assert(concat_all(m.drop_last()) + last =~= concat_all(m.drop_last()) + line_prefix(
            (first + ls.len() - 1) as nat,
            width,
        ) + line_content(ls.last(), show_all));
    } else {
        assert(m =~= Seq::<Seq<char>>::empty());
    }
}

} // verus!
