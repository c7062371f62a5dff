use vstd::prelude::*;
use vstd::string::StringSliceAdditionalSpecFns;

use crate::chars::{chars_of, string_from_chars};
use crate::emit::EmitSettings;
use crate::style::StyleConfig;

verus! {

broadcast use vstd::string::group_string_axioms;

/// When to colour the output (`--color`).
#[derive(Clone, Copy, Debug, PartialEq, Eq)]
pub enum ColorWhen {
    /// When writing to a terminal or a pager, unless colour is switched off.
    Auto,
    Never,
    Always,
}

/// Whether output is coloured: with `auto`, when it goes to a terminal or a
/// pager and neither `--no-color` nor `NO_COLOR` switches colour off;
/// `never` and `always` override all of these.
pub open spec fn color_spec(
    stdout_is_terminal: bool,
    pager: bool,
    no_color: bool,
    no_color_env: bool,
    when: ColorWhen,
) -> bool {
    match when {
        ColorWhen::Never => false,
        ColorWhen::Always => true,
        ColorWhen::Auto => (stdout_is_terminal || pager) && !no_color && !no_color_env,
    }
}

/// Decides whether output is coloured.
pub fn color_enabled(
    stdout_is_terminal: bool,
    pager: bool,
    no_color: bool,
    no_color_env: bool,
    when: ColorWhen,
) -> (r: bool)
    ensures
        r == color_spec(stdout_is_terminal, pager, no_color, no_color_env, when),
{
    let mut use_color = stdout_is_terminal || pager;
    if no_color || no_color_env {
        use_color = false;
    }
    match when {
        ColorWhen::Auto => {},
        ColorWhen::Never => {
            use_color = false;
        },
        ColorWhen::Always => {
            use_color = true;
        },
    }
    use_color
}

/// Why output cannot be set up.
#[derive(Clone, Copy, Debug, PartialEq, Eq)]
pub enum OutputError {
    /// `--pager` was given while standard output is no terminal.
    PagerNeedsTerminal,
}

/// A pager is started only for a terminal.
pub fn check_pager(pager: bool, stdout_is_terminal: bool) -> (r: Result<(), OutputError>)
    ensures
        r is Ok <==> !(pager && !stdout_is_terminal),
        r matches Err(e) ==> e == OutputError::PagerNeedsTerminal,
{
    if pager && !stdout_is_terminal {
        Err(OutputError::PagerNeedsTerminal)
    } else {
        Ok(())
    }
}

/// The settings for writing files: the decorations of `style`, colour as
/// decided, and blank lines squeezed when `--squeeze-blank` or a
/// `--squeeze-limit` (by default 1) is given.
pub fn emit_settings(
    style: &StyleConfig,
    use_color: bool,
    squeeze_blank: bool,
    squeeze_limit: Option<usize>,
    show_all: bool,
) -> (r: EmitSettings)
    ensures
        r.decoration_config == style.decoration_config,
        r.use_color == use_color,
        r.squeeze_blank == (squeeze_blank || squeeze_limit is Some),
        r.squeeze_limit == (match squeeze_limit {
            Some(n) => n,
            None => 1,
        }),
        r.show_all == show_all,
{
    let limit = match squeeze_limit {
        Some(n) => n,
        None => 1,
    };
    EmitSettings {
        decoration_config: style.decoration_config,
        use_color,
        squeeze_blank: squeeze_blank || squeeze_limit.is_some(),
        squeeze_limit: limit,
        show_all,
    }
}

/// The inputs to read: the files given, or standard input (`-`) when none
/// is given.
pub fn input_paths(files: Vec<String>) -> (r: Vec<String>)
    ensures
        files@.len() == 0 ==> r@.len() == 1 && r@[0]@ == seq!['-'],
        files@.len() > 0 ==> r@ == files@,
{
    if files.len() == 0 {
        let mut dash: Vec<char> = Vec::new();
        dash.push('-');
        let mut r: Vec<String> = Vec::new();
        r.push(string_from_chars(&dash));
        r
    } else {
        files
    }
}

/// `n` copies of `c`.
pub open spec fn repeat_char(c: char, n: nat) -> Seq<char> {
    Seq::new(n, |i: int| c)
}

/// The header above a file when several files are shown: a border of `─` as
/// wide as the terminal, the name centred in that width (`name_len` is its
/// length in bytes, as the terminal width is counted), and the border again,
/// each on a line of its own.
pub open spec fn header_spec(name: Seq<char>, name_len: nat, width: nat) -> Seq<char> {
    let pad: int = (width - name_len) / 2;
    let border = repeat_char('\u{2500}', width);
    border + seq!['\n'] + repeat_char(' ', pad as nat) + name + repeat_char(
        ' ',
        (width - name_len - pad) as nat,
    ) + seq!['\n'] + border + seq!['\n']
}

/// Appends `n` copies of `c` to `out`.
fn push_repeated(out: &mut Vec<char>, c: char, n: usize)
    ensures
        final(out)@ == old(out)@ + repeat_char(c, n as nat),
{
    let mut k: usize = 0;
    while k < n
        invariant
            k <= n,
            out@ == old(out)@ + repeat_char(c, k as nat),
        decreases n - k,
    {
        out.push(c);
        assert(repeat_char(c, (k + 1) as nat) =~= repeat_char(c, k as nat).push(c));
        k = k + 1;
    }
}

/// The header for the file shown as `display_name` in a terminal
/// `term_width` columns wide.
pub fn file_header(display_name: &str, term_width: usize) -> (r: String)
    requires
        display_name.spec_bytes().len() <= term_width,
    ensures
        r@ == header_spec(display_name@, display_name.spec_bytes().len(), term_width as nat),
{
    let name_len = display_name.len();
    let padding = (term_width - name_len) / 2;
    let name = chars_of(display_name);
    let mut out: Vec<char> = Vec::new();
    push_repeated(&mut out, '\u{2500}', term_width);
    out.push('\n');
    push_repeated(&mut out, ' ', padding);
    let mut i: usize = 0;
    let ghost before = out@;
    while i < name.len()
        invariant
            i <= name@.len(),
            out@ == before + name@.take(i as int),
        decreases name@.len() - i,
    {
        out.push(name[i]);
        assert(name@.take(i + 1) =~= name@.take(i as int).push(name@[i as int]));
        i = i + 1;
    }
    assert(name@.take(name@.len() as int) =~= name@);
    push_repeated(&mut out, ' ', term_width - name_len - padding);
    out.push('\n');
    push_repeated(&mut out, '\u{2500}', term_width);
    out.push('\n');
    let r = string_from_chars(&out);
    assert(r@ =~= header_spec(display_name@, display_name.spec_bytes().len(), term_width as nat));
    r
}

} // verus!

verus! {

/// Which queries highlighting runs with.
#[derive(Clone, Copy, Debug, PartialEq, Eq)]
pub enum HighlightQueries {
    /// The language's full configuration, embedded languages highlighted too.
    WithInjections,
    /// Highlights and locals.
    WithLocals,
    /// Highlights alone.
    HighlightsOnly,
}

/// Embedded languages are highlighted when `--style=rich` asks for it, and
/// always for Markdown; otherwise locals are used when asked for.
pub fn highlight_queries(rich: bool, is_markdown: bool, locals: bool) -> (r: HighlightQueries)
    ensures
        r == (if rich || is_markdown {
            HighlightQueries::WithInjections
        } else if locals {
            HighlightQueries::WithLocals
        } else {
            HighlightQueries::HighlightsOnly
        }),
{
    if rich || is_markdown {
        HighlightQueries::WithInjections
    } else if locals {
        HighlightQueries::WithLocals
    } else {
        HighlightQueries::HighlightsOnly
    }
}

/// What to do for the next input.
#[derive(Clone, Copy, Debug, PartialEq, Eq)]
pub struct InputPlan {
    /// Write an empty line before the header.
    pub blank_line: bool,
    /// Write the header naming the input.
    pub header: bool,
    /// Read and show the input.
    pub read: bool,
}

/// The walk over the inputs: whether standard input has been read and
/// whether any input has been shown.
#[derive(Clone, Copy, Debug, PartialEq, Eq)]
pub struct InputWalk {
    pub stdin_consumed: bool,
    pub wrote_output: bool,
}

impl InputWalk {
    /// Before the first input.
    pub fn new() -> (r: Self)
        ensures
            !r.stdin_consumed && !r.wrote_output,
    {
        InputWalk { stdin_consumed: false, wrote_output: false }
    }

    /// The plan for the next input: with headers between several files,
    /// every input gets a header, after an empty line once something has
    /// been shown; standard input is read only the first time it comes.
    pub fn next(&mut self, is_stdin: bool, headers: bool) -> (r: InputPlan)
        ensures
            r.header == headers,
            r.blank_line == (headers && old(self).wrote_output),
            r.read == !(is_stdin && old(self).stdin_consumed),
            final(self).stdin_consumed == (old(self).stdin_consumed || is_stdin),
            final(self).wrote_output == old(self).wrote_output,
    {
        let plan = InputPlan {
            blank_line: headers && self.wrote_output,
            header: headers,
            read: !(is_stdin && self.stdin_consumed),
        };
        if is_stdin {
            self.stdin_consumed = true;
        }
        plan
    }

    /// An input has been shown.
    pub fn shown(&mut self)
        ensures
            final(self).wrote_output,
            final(self).stdin_consumed == old(self).stdin_consumed,
    {
        self.wrote_output = true;
    }
}

} // verus!

verus! {

/// Colour follows `--color`: `never` never colours and `always` always does;
/// with `auto`, `--no-color` or `NO_COLOR` switches colour off whatever the
/// terminal and the pager, and otherwise output is coloured exactly when it
/// goes to a terminal or a pager.
pub proof fn law_colour_switches(
    stdout_is_terminal: bool,
    pager: bool,
    no_color: bool,
    no_color_env: bool,
)
    ensures
        !color_spec(stdout_is_terminal, pager, no_color, no_color_env, ColorWhen::Never),
        color_spec(stdout_is_terminal, pager, no_color, no_color_env, ColorWhen::Always),
        (no_color || no_color_env) ==> !color_spec(
            stdout_is_terminal,
            pager,
            no_color,
            no_color_env,
            ColorWhen::Auto,
        ),
        (!no_color && !no_color_env) ==> (color_spec(
            stdout_is_terminal,
            pager,
            no_color,
            no_color_env,
            ColorWhen::Auto,
        ) == (stdout_is_terminal || pager)),
{
}

} // verus!
