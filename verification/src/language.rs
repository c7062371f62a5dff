use std::str::FromStr;

use vstd::prelude::*;

use crate::chars::{ascii_lower, chars_of, copy_range, lower, string_from_chars, trim, trimmed};
use crate::pager::last_segment;

verus! {

broadcast use vstd::string::group_string_axioms;

/// The name of the file type that palate detects for a file at `path` with
/// text `content` (`palate::detect`, `text` when nothing matches).
pub uninterp spec fn palate_file_type(path: Seq<char>, content: Seq<char>) -> Seq<char>;

/// Detects the file type of `content` found at `path` (`palate::detect`),
/// by its name.
#[verifier::external_body]
fn palate_detect(path: &str, content: &str) -> (r: String)
    ensures
        r@ == palate_file_type(path@, content@),
{
    String::from(palate::detect(path, content).as_ref())
}

/// The name of the file type that palate reads from `name`
/// (`palate::FileType::from_str`), if it knows one.
pub uninterp spec fn palate_type_named(name: Seq<char>) -> Option<Seq<char>>;

/// Reads a file type name (`palate::FileType::from_str`).
#[verifier::external_body]
fn palate_type_from_name(name: &str) -> (r: Option<String>)
    ensures
        r matches Some(s) ==> palate_type_named(name@) == Some(s@),
        r is None ==> palate_type_named(name@) is None,
{
    match palate::FileType::from_str(name) {
        Ok(file_type) => Some(String::from(file_type.as_ref())),
        Err(_) => None,
    }
}

/// The file type detected for text read from `path` (an empty path for
/// standard input).
pub fn detected_file_type(path: Option<&str>, content: &str) -> (r: String)
    ensures
        path matches Some(p) ==> r@ == palate_file_type(p@, content@),
        path is None ==> r@ == palate_file_type(Seq::<char>::empty(), content@),
{
    match path {
        Some(p) => palate_detect(p, content),
        None => {
            let empty = "";
            proof {
                reveal_strlit("");
            }
            assert(empty@ =~= Seq::<char>::empty());
            palate_detect(empty, content)
        },
    }
}

/// The file type that `--language` names, read without the white space
/// around it.
pub fn language_name(name: &str) -> (r: Option<String>)
    ensures
        r matches Some(s) ==> palate_type_named(trimmed(name@)) == Some(s@),
        r is None ==> palate_type_named(trimmed(name@)) is None,
{
    let t = string_from_chars(&trim(&chars_of(name)));
    palate_type_from_name(t.as_str())
}

/// The names under which an embedded language is looked up: the name in
/// ASCII lower case, then, when it holds a `/`, the part after the last
/// `/`.
pub open spec fn injection_names_spec(name: Seq<char>) -> Seq<Seq<char>> {
    let l = name.map_values(|c: char| ascii_lower(c));
    if exists|i: int| 0 <= i < l.len() && l[i] == '/' {
        seq![l, last_segment(l)]
    } else {
        seq![l]
    }
}

/// The names to look an embedded language up by, in order.
pub fn injection_names(name: &str) -> (r: Vec<String>)
    ensures
        r@.map_values(|s: String| s@) == injection_names_spec(name@),
{
    let v = chars_of(name);
    let mut l: Vec<char> = Vec::new();
    let mut i: usize = 0;
    while i < v.len()
        invariant
            i <= v@.len(),
            v@ == name@,
            l@ == v@.take(i as int).map_values(|c: char| ascii_lower(c)),
        decreases v@.len() - i,
    {
        l.push(lower(v[i]));
        assert(v@.take(i + 1).map_values(|c: char| ascii_lower(c)) =~= v@.take(i as int).map_values(
            |c: char| ascii_lower(c),
        ).push(ascii_lower(v@[i as int])));
        i = i + 1;
    }
    assert(v@.take(v@.len() as int) =~= v@);
    let ghost ls = name@.map_values(|c: char| ascii_lower(c));
    assert(l@ == ls);
    let n = l.len();
    let mut lo = n;
    assert(l@.take(n as int) =~= l@);
    assert(l@.subrange(n as int, n as int) =~= Seq::<char>::empty());
    while lo > 0 && l[lo - 1] != '/'
        invariant
            lo <= n == l@.len(),
            last_segment(l@) == last_segment(l@.take(lo as int)) + l@.subrange(lo as int, n as int),
            forall|j: int| lo <= j < n ==> l@[j] != '/',
        decreases lo,
    {
        let ghost q = l@.take(lo as int);
        assert(q.drop_last() =~= l@.take(lo - 1));
        assert(l@.subrange(lo - 1, n as int) =~= seq![l@[lo - 1]] + l@.subrange(lo as int, n as int));
        assert(last_segment(q) == last_segment(l@.take(lo - 1)).push(l@[lo - 1]));
        lo = lo - 1;
    }
    let mut r: Vec<String> = Vec::new();
    r.push(string_from_chars(&l));
    if lo > 0 {
        assert(l@.take(lo as int).last() == '/');
        assert(last_segment(l@.take(lo as int)) =~= Seq::<char>::empty());
        let tail = copy_range(&l, lo, n);
        assert(tail@ =~= last_segment(l@));
        assert(l@[lo - 1] == '/');
        r.push(string_from_chars(&tail));
        assert(r@.map_values(|s: String| s@) =~= seq![ls, last_segment(ls)]);
    } else {
        assert(!(exists|j: int| 0 <= j < ls.len() && ls[j] == '/'));
        assert(r@.map_values(|s: String| s@) =~= seq![ls]);
    }
    r
}

} // verus!
