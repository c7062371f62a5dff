use vstd::prelude::*;

verus! {

/// Whether `v` is the code of a Unicode scalar value.
pub open spec fn is_scalar_value(v: u32) -> bool {
    v < 0xD800 || (0xE000 <= v && v <= 0x10FFFF)
}

/// The character with code `v` (std's `char::from_u32`): `None` exactly when
/// `v` is not a Unicode scalar value.
#[verifier::external_body]
fn char_from_u32(v: u32) -> (r: Option<char>)
    ensures
        is_scalar_value(v) ==> r == Some(v as char),
        !is_scalar_value(v) ==> r is None,
{
    char::from_u32(v)
}

/// How `c` is displayed when unprintable characters are shown: a space as
/// `·`, a tab as `→`, a carriage return as `↵`, a line feed as `␊` before the
/// line break itself, delete as `␡`, and every other C0 control character as
/// its Control Pictures symbol (`␀`, `␁`, ..., `␛` for escape, ...).
pub open spec fn visible(c: char) -> Seq<char> {
    let u = c as u32;
    if c == ' ' {
        seq!['\u{00B7}']
    } else if c == '\t' {
        seq!['\u{2192}']
    } else if c == '\r' {
        seq!['\u{21B5}']
    } else if c == '\n' {
        seq!['\u{240A}', '\n']
    } else if u < 0x20 {
        seq![(0x2400 + u) as char]
    } else if u == 0x7F {
        seq!['\u{2421}']
    } else {
        seq![c]
    }
}

/// `s` with every character replaced by its visible form.
pub open spec fn shown_unprintable(s: Seq<char>) -> Seq<char>
    decreases s.len(),
{
    if s.len() == 0 {
        seq![]
    } else {
        shown_unprintable(s.drop_last()) + visible(s.last())
    }
}

/// Appends the visible form of `c` to `out`.
pub fn push_visible(out: &mut Vec<char>, c: char)
    ensures
        final(out)@ == old(out)@ + visible(c),
{
    let u = c as u32;
    if c == ' ' {
        out.push('\u{00B7}');
    } else if c == '\t' {
        out.push('\u{2192}');
    } else if c == '\r' {
        out.push('\u{21B5}');
    } else if c == '\n' {
        out.push('\u{240A}');
        out.push('\n');
        assert(out@ =~= old(out)@ + seq!['\u{240A}', '\n']);
    } else if u < 0x20 {
        let shown = char_from_u32(0x2400 + u);
        out.push(shown.unwrap());
    } else if u == 0x7F {
        out.push('\u{2421}');
    } else {
        out.push(c);
    }
}

} // verus!

verus! {

/// `text` with every character replaced by its visible form.
pub fn show_unprintable(text: &str) -> (r: String)
    ensures
        r@ == shown_unprintable(text@),
{
    let v = crate::chars::chars_of(text);
    let mut out: Vec<char> = Vec::new();
    let mut i: usize = 0;
    while i < v.len()
        invariant
            i <= v@.len(),
            out@ == shown_unprintable(v@.take(i as int)),
        decreases v@.len() - i,
    {
        push_visible(&mut out, v[i]);
        assert(v@.take(i + 1).drop_last() =~= v@.take(i as int));
        i = i + 1;
    }
    assert(v@.take(v@.len() as int) =~= v@);
    crate::chars::string_from_chars(&out)
}

} // verus!

verus! {

/// A character that shows on screen: a line break, or anything but a space,
/// a C0 control character and delete.
pub open spec fn shows_on_screen(c: char) -> bool {
    c == '\n' || (c != ' ' && (c as u32) >= 0x20 && (c as u32) != 0x7F)
}

/// Once unprintable characters are shown, every character of the text
/// shows on screen, and the text keeps exactly its line breaks.
pub proof fn law_shown_text_is_visible(s: Seq<char>)
    ensures
        forall|i: int|
            0 <= i < shown_unprintable(s).len() ==> shows_on_screen(
                #[trigger] shown_unprintable(s)[i],
            ),
        crate::text::count_of(shown_unprintable(s), '\n') == crate::text::count_of(s, '\n'),
    decreases s.len(),
{
    if s.len() > 0 {
        let p = shown_unprintable(s.drop_last());
        let c = s.last();
        let v = visible(c);
        law_shown_text_is_visible(s.drop_last());
        assert forall|j: int| 0 <= j < v.len() implies shows_on_screen(#[trigger] v[j]) by {
            let u = c as u32;
            if c != ' ' && c != '\t' && c != '\r' && c != '\n' && u < 0x20 {
                assert(((0x2400 + u) as char) as u32 == 0x2400 + u);
            }
        }
        assert forall|i: int| 0 <= i < (p + v).len() implies shows_on_screen(#[trigger] (p + v)[i]) by {
            if i < p.len() {
                assert((p + v)[i] == p[i]);
            } else {
                assert((p + v)[i] == v[i - p.len()]);
            }
        }
        crate::text::lemma_count_of_append(p, v, '\n');
        assert(crate::text::count_of(v, '\n') == (if c == '\n' { 1nat } else { 0nat })) by {
            let u = c as u32;
            reveal_with_fuel(crate::text::count_of, 3);
            if c == '\n' {
                assert(v.drop_last() =~= seq!['\u{240A}']);
                assert(seq!['\u{240A}'].drop_last() =~= Seq::<char>::empty());
            } else {
                assert(v.drop_last() =~= Seq::<char>::empty());
                if c != ' ' && c != '\t' && c != '\r' && u < 0x20 {
                    assert(((0x2400 + u) as char) as u32 == 0x2400 + u);
                }
            }
        }
    }
}

} // verus!

verus! {

/// A printable character other than space: not a space, not a C0 control
/// character and not delete.
pub open spec fn is_printable_non_space(c: char) -> bool {
    c != ' ' && (c as u32) >= 0x20 && (c as u32) != 0x7F
}

/// Showing unprintable characters leaves every printable character other
/// than space as it is: its visible form is itself, and a text made only of
/// such characters is shown unchanged.
pub proof fn law_printable_characters_stay(c: char, s: Seq<char>)
    ensures
        is_printable_non_space(c) ==> visible(c) == seq![c],
        (forall|i: int| 0 <= i < s.len() ==> is_printable_non_space(#[trigger] s[i]))
            ==> shown_unprintable(s) == s,
    decreases s.len(),
{
    if s.len() > 0 && (forall|i: int| 0 <= i < s.len() ==> is_printable_non_space(#[trigger] s[i])) {
        let init = s.drop_last();
        assert forall|i: int| 0 <= i < init.len() implies is_printable_non_space(
            #[trigger] init[i],
        ) by {
            assert(init[i] == s[i]);
        }
        law_printable_characters_stay(s.last(), init);
        assert(is_printable_non_space(s[s.len() - 1]));
        assert(shown_unprintable(s) == init + seq![s.last()]);
        assert(init + seq![s.last()] =~= s);
    }
}

} // verus!
