use vstd::prelude::*;

use crate::chars::{
    chars_of, copy_range, eq_ignore_ascii_case, eq_ignore_ascii_case_spec, string_from_chars, trim,
    trimmed,
};

verus! {

broadcast use vstd::string::group_string_axioms;

/// The views of a sequence of strings.
pub open spec fn string_views(v: Seq<String>) -> Seq<Seq<char>> {
    v.map_values(|s: String| s@)
}

/// The words into which `shlex::split` divides `line`, or `None` where it
/// reports malformed input (an unterminated quote or a trailing backslash).
pub uninterp spec fn shlex_words(line: Seq<char>) -> Option<Seq<Seq<char>>>;

/// Splits `line` into words the way a POSIX shell does (`shlex::split`).
#[verifier::external_body]
fn shlex_split(line: &str) -> (r: Option<Vec<String>>)
    ensures
        r matches Some(v) ==> shlex_words(line@) == Some(string_views(v@)),
        r is None ==> shlex_words(line@) is None,
{
    shlex::split(line)
}

/// `p` with trailing separators and trailing `.` components removed.
pub open spec fn strip_trailing_components(p: Seq<char>) -> Seq<char>
    decreases p.len(),
{
    if p.len() > 0 && p.last() == '/' {
        strip_trailing_components(p.drop_last())
    } else if p.len() >= 2 && p.last() == '.' && p[p.len() - 2] == '/' {
        strip_trailing_components(p.drop_last())
    } else {
        p
    }
}

/// The part of `q` after its last separator.
pub open spec fn last_segment(q: Seq<char>) -> Seq<char>
    decreases q.len(),
{
    if q.len() == 0 {
        q
    } else if q.last() == '/' {
        seq![]
    } else {
        last_segment(q.drop_last()).push(q.last())
    }
}

/// The final component of path `p` when it is a normal name (not `.`, `..`
/// or the root), as `Path::file_name` gives it.
pub open spec fn file_name_spec(p: Seq<char>) -> Option<Seq<char>> {
    let n = last_segment(strip_trailing_components(p));
    if n.len() == 0 || n == seq!['.'] || n == seq!['.', '.'] {
        None
    } else {
        Some(n)
    }
}

/// The program `p` is `less`, ignoring ASCII case and its directory.
pub open spec fn uses_less_spec(p: Seq<char>) -> bool {
    file_name_spec(p) matches Some(n) && eq_ignore_ascii_case_spec(n, "less"@)
}

/// Whether the pager program is `less`.
pub fn pager_uses_less(program: &str) -> (r: bool)
    ensures
        r == uses_less_spec(program@),
{
    let v = chars_of(program);
    let mut hi = v.len();
    assert(v@.take(hi as int) =~= v@);
    loop
        invariant
            hi <= v@.len(),
            v@ == program@,
            strip_trailing_components(v@) == strip_trailing_components(v@.take(hi as int)),
        ensures
            hi <= v@.len(),
            v@ == program@,
            strip_trailing_components(v@) == v@.take(hi as int),
        decreases hi,
    {
        let ghost q = v@.take(hi as int);
        if hi > 0 && v[hi - 1] == '/' {
            assert(q.drop_last() =~= v@.take(hi - 1));
            hi = hi - 1;
        } else if hi >= 2 && v[hi - 1] == '.' && v[hi - 2] == '/' {
            assert(q.drop_last() =~= v@.take(hi - 1));
            hi = hi - 1;
        } else {
            break;
        }
    }
    let mut lo = hi;
    assert(v@.subrange(lo as int, hi as int) =~= Seq::<char>::empty());
    assert(v@.take(hi as int) =~= v@.take(lo as int));
    while lo > 0 && v[lo - 1] != '/'
        invariant
            lo <= hi <= v@.len(),
            last_segment(v@.take(hi as int)) == last_segment(v@.take(lo as int)) + v@.subrange(
                lo as int,
                hi as int,
            ),
        decreases lo,
    {
        let ghost q = v@.take(lo as int);
        assert(q.drop_last() =~= v@.take(lo - 1));
        assert(v@.subrange(lo - 1, hi as int) =~= seq![v@[lo - 1]] + v@.subrange(
            lo as int,
            hi as int,
        ));
        assert(last_segment(q) == last_segment(v@.take(lo - 1)).push(v@[lo - 1]));
        lo = lo - 1;
    }
    if lo > 0 {
        assert(v@.take(lo as int).last() == '/');
    }
    assert(last_segment(v@.take(lo as int)) =~= Seq::<char>::empty());
    let name = copy_range(&v, lo, hi);
    assert(name@ =~= last_segment(strip_trailing_components(program@)));
    proof {
        if name@.len() == 1 && name@[0] == '.' {
            assert(name@ =~= seq!['.']);
        }
        if name@.len() == 2 && name@[0] == '.' && name@[1] == '.' {
            assert(name@ =~= seq!['.', '.']);
        }
        if name@ == seq!['.'] {
            assert(name@[0] == '.');
        }
        if name@ == seq!['.', '.'] {
            assert(name@[0] == '.' && name@[1] == '.');
        }
    }
    if name.len() == 0 || (name.len() == 1 && name[0] == '.') || (name.len() == 2 && name[0] == '.'
        && name[1] == '.') {
        return false;
    }
    eq_ignore_ascii_case(&name, &chars_of("less"))
}

/// `less` shows colours for argument `a`: `--RAW-CONTROL-CHARS` in any case,
/// or a bundle of short flags (`-...`, not `--...`) holding `R` or `r`.
pub open spec fn less_arg_enables_raw(a: Seq<char>) -> bool {
    ||| eq_ignore_ascii_case_spec(a, "--RAW-CONTROL-CHARS"@)
    ||| a.len() >= 1 && a[0] == '-' && !(a.len() >= 2 && a[1] == '-') && exists|i: int|
        1 <= i < a.len() && (#[trigger] a[i] == 'R' || a[i] == 'r')
}

/// Some argument in `args` makes `less` show colours.
pub open spec fn args_enable_raw(args: Seq<Seq<char>>) -> bool {
    exists|i: int| 0 <= i < args.len() && less_arg_enables_raw(#[trigger] args[i])
}

/// Whether `arg` makes `less` pass colour sequences through.
pub fn less_arg_supports_raw_control_chars(arg: &str) -> (r: bool)
    ensures
        r == less_arg_enables_raw(arg@),
{
    let v = chars_of(arg);
    if eq_ignore_ascii_case(&v, &chars_of("--RAW-CONTROL-CHARS")) {
        return true;
    }
    if v.len() >= 1 && v[0] == '-' && !(v.len() >= 2 && v[1] == '-') {
        let mut i: usize = 1;
        while i < v.len()
            invariant
                1 <= i <= v@.len(),
                v@ == arg@,
                v@[0] == '-',
                !(v@.len() >= 2 && v@[1] == '-'),
                forall|j: int| 1 <= j < i ==> !(#[trigger] v@[j] == 'R' || v@[j] == 'r'),
            decreases v@.len() - i,
        {
            if v[i] == 'R' || v[i] == 'r' {
                assert(v@[i as int] == 'R' || v@[i as int] == 'r');
                return true;
            }
            i = i + 1;
        }
    }
    false
}

/// Whether some argument makes `less` pass colour sequences through.
pub fn less_supports_raw_control_chars(args: &[String]) -> (r: bool)
    ensures
        r == args_enable_raw(string_views(args@)),
{
    let mut i: usize = 0;
    while i < args.len()
        invariant
            i <= args@.len(),
            forall|j: int| 0 <= j < i ==> !less_arg_enables_raw(#[trigger] args@[j]@),
        decreases args@.len() - i,
    {
        if less_arg_supports_raw_control_chars(args[i].as_str()) {
            assert(string_views(args@)[i as int] == args@[i as int]@);
            return true;
        }
        i = i + 1;
    }
    assert forall|j: int| 0 <= j < args@.len() implies !less_arg_enables_raw(
        #[trigger] string_views(args@)[j],
    ) by {
        assert(string_views(args@)[j] == args@[j]@);
    }
    false
}

/// `program` followed by each argument, separated by single spaces.
pub open spec fn command_line(program: Seq<char>, args: Seq<Seq<char>>) -> Seq<char>
    decreases args.len(),
{
    if args.len() == 0 {
        program
    } else {
        command_line(program, args.drop_last()) + seq![' '] + args.last()
    }
}

/// The command as it would be typed.
pub fn format_command(program: &str, args: &[String]) -> (r: String)
    ensures
        r@ == command_line(program@, string_views(args@)),
{
    let mut rendered = program.to_owned();
    let mut i: usize = 0;
    proof {
        reveal_strlit(" ");
    }
    while i < args.len()
        invariant
            i <= args@.len(),
            rendered@ == command_line(program@, string_views(args@.take(i as int))),
        decreases args@.len() - i,
    {
        rendered.append(" ");
        rendered.append(args[i].as_str());
        proof {
            reveal_strlit(" ");
            let before = string_views(args@.take(i as int));
            let after = string_views(args@.take(i + 1));
            assert(after.drop_last() =~= before);
            assert(after.last() == args@[i as int]@);
            assert(" "@ =~= seq![' ']);
        }
        i = i + 1;
    }
    assert(args@.take(args@.len() as int) =~= args@);
    rendered
}

/// Why the pager cannot be started.
#[derive(Debug)]
pub enum PagerError {
    /// `PAGER` holds no command (it does not split into words, or into no
    /// word at all).
    InvalidCommand(String),
}

/// The pager command made of `words`: the first is the program, the others
/// its arguments, with `-R` added for `less` unless colours are already on.
pub open spec fn pager_from_words(words: Option<Seq<Seq<char>>>) -> Option<
    (Seq<char>, Seq<Seq<char>>),
> {
    match words {
        None => None,
        Some(w) => if w.len() == 0 {
            None
        } else {
            let program = w[0];
            let args = w.drop_first();
            if uses_less_spec(program) && !args_enable_raw(args) {
                Some((program, args.push("-R"@)))
            } else {
                Some((program, args))
            }
        },
    }
}

/// Builds the pager command from the words of `raw`.
pub fn pager_command_from_words(raw: &str, words: Option<Vec<String>>) -> (r: Result<
    (String, Vec<String>),
    PagerError,
>)
    ensures
        match pager_from_words(
            match words {
                Some(v) => Some(string_views(v@)),
                None => None,
            },
        ) {
            None => r matches Err(PagerError::InvalidCommand(s)) && s@ == raw@,
            Some((p, a)) => r matches Ok((program, args)) && program@ == p && string_views(args@)
                == a,
        },
{
    let parts = match words {
        Some(parts) => parts,
        None => return Err(PagerError::InvalidCommand(raw.to_owned())),
    };
    if parts.len() == 0 {
        return Err(PagerError::InvalidCommand(raw.to_owned()));
    }
    let program = parts[0].clone();
    let mut args: Vec<String> = Vec::new();
    let mut i: usize = 1;
    while i < parts.len()
        invariant
            1 <= i <= parts@.len(),
            string_views(args@) == string_views(parts@).drop_first().take(i - 1),
        decreases parts@.len() - i,
    {
        let ghost old_args = args@;
        let item = parts[i].clone();
        assert(item@ == parts@[i as int]@);
        args.push(item);
        assert(string_views(args@) =~= string_views(old_args).push(parts@[i as int]@));
        assert(string_views(args@) =~= string_views(parts@).drop_first().take(i as int));
        i = i + 1;
    }
    assert(string_views(parts@).drop_first().take(parts@.len() - 1) =~= string_views(
        parts@,
    ).drop_first());
    assert(string_views(parts@)[0] == parts@[0]@);
    if pager_uses_less(program.as_str()) && !less_supports_raw_control_chars(&args) {
        let ghost before = args@;
        args.push("-R".to_owned());
        assert(string_views(args@) =~= string_views(before).push("-R"@));
    }
    Ok((program, args))
}

/// The pager command: `PAGER` (trimmed) split into words when it is set and
/// not blank, otherwise `less -R`.
pub open spec fn pager_command_spec(pager: Option<Seq<char>>) -> Option<(Seq<char>, Seq<Seq<char>>)> {
    match pager {
        Some(p) if trimmed(p).len() > 0 => pager_from_words(shlex_words(trimmed(p))),
        _ => Some(("less"@, seq!["-R"@])),
    }
}

/// Chooses the pager to start from the value of `PAGER`.
pub fn resolve_pager_command_from_env(pager: Option<&str>) -> (r: Result<
    (String, Vec<String>),
    PagerError,
>)
    ensures
        match pager_command_spec(
            match pager {
                Some(p) => Some(p@),
                None => None,
            },
        ) {
            None => r matches Err(PagerError::InvalidCommand(s)) && s@ == trimmed(pager.unwrap()@),
            Some((p, a)) => r matches Ok((program, args)) && program@ == p && string_views(args@)
                == a,
        },
{
    let raw = match pager {
        Some(p) => {
            let t = trim(&chars_of(p));
            if t.len() == 0 {
                None
            } else {
                Some(string_from_chars(&t))
            }
        },
        None => None,
    };
    match raw {
        None => {
            let mut args: Vec<String> = Vec::new();
            args.push("-R".to_owned());
            assert(string_views(args@) =~= seq!["-R"@]);
            Ok(("less".to_owned(), args))
        },
        Some(raw) => {
            let words = shlex_split(raw.as_str());
            pager_command_from_words(raw.as_str(), words)
        },
    }
}

} // verus!

verus! {

/// Whatever `PAGER` holds, a pager command that runs `less` always carries
/// an argument that makes `less` pass colour sequences through.
pub proof fn law_less_pager_shows_colors(pager: Option<Seq<char>>)
    ensures
        pager_command_spec(pager) matches Some((program, args)) ==> (uses_less_spec(program)
            ==> args_enable_raw(args)),
{
    reveal_strlit("-R");
    let r = "-R"@;
    assert(r[0] == '-' && r[1] == 'R' && r.len() == 2);
    assert(less_arg_enables_raw(r));
    match pager_command_spec(pager) {
        Some((program, args)) => {
            if uses_less_spec(program) {
                if args.len() > 0 && args.last() == r {
                    assert(args[args.len() - 1] == r);
                }
            }
        },
        None => {},
    }
}

} // verus!
