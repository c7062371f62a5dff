use vstd::prelude::*;

use crate::chars::{chars_eq, chars_of, copy_range, trim, trimmed};
use crate::text::free_of;

verus! {

/// Which decorations surround the text of a file.
#[derive(Clone, Copy, Debug, PartialEq, Eq)]
pub struct DecorationConfig {
    /// A column of line numbers.
    pub show_numbers: bool,
    /// A margin of version-control change marks.
    pub show_changes: bool,
    /// A header with the file name above each file.
    pub show_headers: bool,
}

impl DecorationConfig {
    /// Whether lines get a margin (numbers or change marks); headers stand
    /// between files and are not counted.
    pub fn has_decorations(&self) -> (r: bool)
        ensures
            r == (self.show_numbers || self.show_changes),
    {
        self.show_numbers || self.show_changes
    }
}

impl Default for DecorationConfig {
    fn default() -> (r: Self)
        ensures
            !r.show_numbers && !r.show_changes && !r.show_headers,
    {
        DecorationConfig { show_numbers: false, show_changes: false, show_headers: false }
    }
}

/// The settings chosen with `--style`.
#[derive(Clone, Copy, Debug, PartialEq, Eq)]
pub struct StyleConfig {
    pub decoration_config: DecorationConfig,
    /// Use the locals query when highlighting.
    pub highlight_locals: bool,
    /// Highlight embedded languages too.
    pub highlight_injections: bool,
}

impl Default for StyleConfig {
    fn default() -> (r: Self)
        ensures
            !r.decoration_config.show_numbers && !r.decoration_config.show_changes
                && !r.decoration_config.show_headers && !r.highlight_locals
                && !r.highlight_injections,
    {
        StyleConfig {
            decoration_config: DecorationConfig::default(),
            highlight_locals: false,
            highlight_injections: false,
        }
    }
}

/// `s[i..j]` is one of the comma-separated fields of `s`.
pub open spec fn comma_field(s: Seq<char>, i: int, j: int) -> bool {
    &&& 0 <= i <= j <= s.len()
    &&& i == 0 || s[i - 1] == ','
    &&& j == s.len() || s[j] == ','
    &&& free_of(s, ',', i, j)
}

/// Some comma-separated field of `s` is `name` once trimmed.
pub open spec fn has_component(s: Seq<char>, name: Seq<char>) -> bool {
    exists|i: int, j: int| #[trigger] comma_field(s, i, j) && trimmed(s.subrange(i, j)) == name
}

proof fn lemma_field_unique(s: Seq<char>, start: int, i: int, a: int, b: int)
    requires
        0 <= start <= i <= s.len(),
        start == 0 || s[start - 1] == ',',
        free_of(s, ',', start, i),
        i == s.len() || s[i] == ',',
        comma_field(s, a, b),
        start <= a <= i,
    ensures
        a == start && b == i,
{
    if a > start {
        assert(s[a - 1] == ',');
        assert(s[a - 1] != ',');
    }
    if b < i {
        assert(s[b] == ',');
        assert(s[b] != ',');
    }
    if b > i {
        assert(s[i] == ',');
        assert(s[i] != ',');
    }
}

/// Whether some comma-separated field of `v` is `name` once trimmed.
pub fn has_component_exec(v: &[char], name: &[char]) -> (r: bool)
    ensures
        r == has_component(v@, name@),
{
    let mut found = false;
    let mut start: usize = 0;
    let mut i: usize = 0;
    while i <= v.len()
        invariant
            start <= i <= v@.len() + 1,
            start <= v@.len(),
            start == 0 || v@[start - 1] == ',',
            free_of(v@, ',', start as int, i as int),
            found == exists|a: int, b: int|
                #[trigger] comma_field(v@, a, b) && a < start && trimmed(v@.subrange(a, b))
                    == name@,
            i == v@.len() + 1 ==> start == v@.len() && found,
        decreases v@.len() + 1 - i,
    {
        if i == v.len() || v[i] == ',' {
            let field = copy_range(v, start, i);
            let token = trim(&field);
            let hit = chars_eq(&token, name);
            proof {
                assert(comma_field(v@, start as int, i as int));
                assert forall|a: int, b: int|
                    #[trigger] comma_field(v@, a, b) && start <= a < i + 1 implies a == start && b
                    == i by {
                    lemma_field_unique(v@, start as int, i as int, a, b);
                }
            }
            found = found || hit;
            if i == v.len() {
                assert(forall|a: int, b: int| #[trigger] comma_field(v@, a, b) ==> a <= v@.len());
                return found;
            }
            start = i + 1;
        }
        i = i + 1;
    }
    found
}

/// The settings that `--style` asks for: `numbers`, `changes`, `headers` and
/// `rich` among its comma-separated components; unknown components are
/// ignored, and locals are always highlighted.
pub open spec fn style_spec(style: Option<Seq<char>>) -> (bool, bool, bool, bool) {
    match style {
        None => (false, false, false, false),
        Some(s) => (
            has_component(s, "numbers"@),
            has_component(s, "changes"@),
            has_component(s, "headers"@),
            has_component(s, "rich"@),
        ),
    }
}

/// Reads the components of `--style`.
pub fn parse_style_components(style: Option<&str>) -> (r: StyleConfig)
    ensures
        ({
            let (numbers, changes, headers, rich) = style_spec(
                match style {
                    Some(s) => Some(s@),
                    None => None,
                },
            );
            &&& r.decoration_config.show_numbers == numbers
            &&& r.decoration_config.show_changes == changes
            &&& r.decoration_config.show_headers == headers
            &&& r.highlight_injections == rich
            &&& r.highlight_locals
        }),
{
    let mut config = StyleConfig {
        decoration_config: DecorationConfig::default(),
        highlight_locals: true,
        highlight_injections: false,
    };
    if let Some(s) = style {
        let v = chars_of(s);
        config.decoration_config.show_numbers = has_component_exec(&v, &chars_of("numbers"));
        config.decoration_config.show_changes = has_component_exec(&v, &chars_of("changes"));
        config.decoration_config.show_headers = has_component_exec(&v, &chars_of("headers"));
        config.highlight_injections = has_component_exec(&v, &chars_of("rich"));
    }
    if config.highlight_injections {
        config.highlight_locals = true;
    }
    config
}

} // verus!

verus! {

proof fn lemma_component_from_left(a: Seq<char>, b: Seq<char>, name: Seq<char>, i: int, j: int)
    requires
        comma_field(a, i, j),
        trimmed(a.subrange(i, j)) == name,
    ensures
        has_component(a + seq![','] + b, name),
{
    let c = a + seq![','] + b;
    assert(c.subrange(i, j) =~= a.subrange(i, j));
    if i > 0 {
        assert(c[i - 1] == a[i - 1]);
    }
    if j < a.len() {
        assert(c[j] == a[j]);
    } else {
        assert(c[j] == ',');
    }
    assert forall|x: int| i <= x < j implies c[x] != ',' by {
        assert(c[x] == a[x]);
    }
    assert(comma_field(c, i, j));
}

proof fn lemma_component_from_right(a: Seq<char>, b: Seq<char>, name: Seq<char>, i: int, j: int)
    requires
        comma_field(b, i, j),
        trimmed(b.subrange(i, j)) == name,
    ensures
        has_component(a + seq![','] + b, name),
{
    let c = a + seq![','] + b;
    let k = a.len() + 1;
    assert(c.subrange(i + k, j + k) =~= b.subrange(i, j));
    if i > 0 {
        assert(c[i + k - 1] == b[i - 1]);
    } else {
        assert(c[i + k - 1] == ',');
    }
    if j < b.len() {
        assert(c[j + k] == b[j]);
    }
    assert forall|x: int| i + k <= x < j + k implies c[x] != ',' by {
        assert(c[x] == b[x - k]);
    }
    assert(comma_field(c, i + k, j + k));
}

proof fn lemma_component_of_join(a: Seq<char>, b: Seq<char>, name: Seq<char>, i: int, j: int)
    requires
        comma_field(a + seq![','] + b, i, j),
        trimmed((a + seq![','] + b).subrange(i, j)) == name,
    ensures
        has_component(a, name) || has_component(b, name),
{
    let c = a + seq![','] + b;
    let k = a.len() as int;
    assert(c[k] == ',');
    if j <= k {
        assert(c.subrange(i, j) =~= a.subrange(i, j));
        if i > 0 {
            assert(a[i - 1] == c[i - 1]);
        }
        if j < k {
            assert(a[j] == c[j]);
        }
        assert forall|x: int| i <= x < j implies a[x] != ',' by {
            assert(a[x] == c[x]);
        }
        assert(comma_field(a, i, j));
    } else if i > k {
        let i2 = i - k - 1;
        let j2 = j - k - 1;
        assert(c.subrange(i, j) =~= b.subrange(i2, j2));
        if i2 > 0 {
            assert(b[i2 - 1] == c[i - 1]);
        }
        if j2 < b.len() {
            assert(b[j2] == c[j]);
        }
        assert forall|x: int| i2 <= x < j2 implies b[x] != ',' by {
            assert(b[x] == c[x + k + 1]);
        }
        assert(comma_field(b, i2, j2));
    } else {
        assert(c[k] != ',');
    }
}

/// Components combine: a `--style` value made of two lists joined by a
/// comma asks for exactly what either list asks for.
pub proof fn law_style_components_combine(a: Seq<char>, b: Seq<char>)
    ensures
        ({
            let (n, c, h, r) = style_spec(Some(a + seq![','] + b));
            let (na, ca, ha, ra) = style_spec(Some(a));
            let (nb, cb, hb, rb) = style_spec(Some(b));
            n == (na || nb) && c == (ca || cb) && h == (ha || hb) && r == (ra || rb)
        }),
{
    lemma_components_combine(a, b, "numbers"@);
    lemma_components_combine(a, b, "changes"@);
    lemma_components_combine(a, b, "headers"@);
    lemma_components_combine(a, b, "rich"@);
}

proof fn lemma_components_combine(a: Seq<char>, b: Seq<char>, name: Seq<char>)
    ensures
        has_component(a + seq![','] + b, name) == (has_component(a, name) || has_component(b, name)),
{
    let c = a + seq![','] + b;
    if has_component(c, name) {
        let (i, j) = choose|i: int, j: int| #[trigger]
            comma_field(c, i, j) && trimmed(c.subrange(i, j)) == name;
        lemma_component_of_join(a, b, name, i, j);
    }
    if has_component(a, name) {
        let (i, j) = choose|i: int, j: int| #[trigger]
            comma_field(a, i, j) && trimmed(a.subrange(i, j)) == name;
        lemma_component_from_left(a, b, name, i, j);
    }
    if has_component(b, name) {
        let (i, j) = choose|i: int, j: int| #[trigger]
            comma_field(b, i, j) && trimmed(b.subrange(i, j)) == name;
        lemma_component_from_right(a, b, name, i, j);
    }
}

} // verus!

verus! {

/// Each setting of `--style` is on exactly when one of the comma-separated
/// components, trimmed, is its own name: `numbers`, `changes`, `headers`,
/// `rich`; without `--style` all are off.
pub proof fn law_style_components_are_named(s: Seq<char>)
    ensures
        ({
            let (n, c, h, r) = style_spec(Some(s));
            &&& n == exists|i: int, j: int| #[trigger]
                comma_field(s, i, j) && trimmed(s.subrange(i, j)) == "numbers"@
            &&& c == exists|i: int, j: int| #[trigger]
                comma_field(s, i, j) && trimmed(s.subrange(i, j)) == "changes"@
            &&& h == exists|i: int, j: int| #[trigger]
                comma_field(s, i, j) && trimmed(s.subrange(i, j)) == "headers"@
            &&& r == exists|i: int, j: int| #[trigger]
                comma_field(s, i, j) && trimmed(s.subrange(i, j)) == "rich"@
        }),
        style_spec(None) == (false, false, false, false),
{
}

/// A `--style` value of one component turns on exactly the setting of that
/// name: `rich` alone never turns numbers on, and `numbers` alone never
/// turns on rich highlighting.
pub proof fn law_single_component(s: Seq<char>)
    requires
        forall|k: int| 0 <= k < s.len() ==> s[k] != ',',
    ensures
        ({
            let (n, c, h, r) = style_spec(Some(s));
            &&& n == (trimmed(s) == "numbers"@)
            &&& c == (trimmed(s) == "changes"@)
            &&& h == (trimmed(s) == "headers"@)
            &&& r == (trimmed(s) == "rich"@)
        }),
{
    lemma_single_component(s, "numbers"@);
    lemma_single_component(s, "changes"@);
    lemma_single_component(s, "headers"@);
    lemma_single_component(s, "rich"@);
}

proof fn lemma_single_component(s: Seq<char>, name: Seq<char>)
    requires
        forall|k: int| 0 <= k < s.len() ==> s[k] != ',',
    ensures
        has_component(s, name) == (trimmed(s) == name),
{
    assert(s.subrange(0, s.len() as int) =~= s);
    assert(comma_field(s, 0, s.len() as int));
    if has_component(s, name) {
        let (i, j) = choose|i: int, j: int| #[trigger]
            comma_field(s, i, j) && trimmed(s.subrange(i, j)) == name;
        if i > 0 {
            assert(s[i - 1] == ',');
        }
        if j < s.len() {
            assert(s[j] == ',');
        }
    }
}

} // verus!
