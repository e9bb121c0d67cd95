//! Code highlighting over an immutable syntax and theme database.
//!
//! The database is syntect's: a set of syntax definitions and one fixed
//! theme, constructed by the caller once and shared read-only afterwards.
//! The lookup of a language tag is verified here; only the calls into
//! syntect itself are trusted.

use crate::render::RenderError;
use crate::slug::spec_lower;
use syntect::highlighting::Theme;
use syntect::parsing::SyntaxSet;
use vstd::prelude::*;

verus! {

#[verifier::external_type_specification]
#[verifier::external_body]
pub struct ExSyntaxSet(SyntaxSet);

#[verifier::external_type_specification]
#[verifier::external_body]
pub struct ExTheme(Theme);

/// What the database holds: the name of each loaded syntax definition,
/// in the set's own order.
pub uninterp spec fn syntax_names(set: SyntaxSet) -> Seq<Seq<char>>;

/// The HTML that syntect produces for `source` under the syntax at
/// `index` of `set` and the theme `theme`, or nothing where the
/// highlighting engine fails; the outcome depends on these arguments
/// alone.
pub uninterp spec fn highlight_html(
    set: SyntaxSet,
    theme: Theme,
    index: int,
    source: Seq<char>,
) -> Option<Seq<char>>;

/// The syntax database and the one theme every fenced code block is
/// rendered under.
pub struct HighlightDb {
    pub set: SyntaxSet,
    pub theme: Theme,
}

impl HighlightDb {
    /// Bundles an externally constructed syntax set and theme.
    pub fn new(set: SyntaxSet, theme: Theme) -> (r: HighlightDb)
        ensures
            r.set == set,
            r.theme == theme,
    {
        HighlightDb { set, theme }
    }
}

/// Relies on `syntect::parsing::SyntaxSet::syntaxes`: hands out the name
/// of each syntax definition, in order.
#[verifier::external_body]
fn syntax_names_of(set: &SyntaxSet) -> (r: Vec<String>)
    ensures
        r@.map_values(|s: String| s@) == syntax_names(*set),
{
    set.syntaxes().iter().map(|s| s.name.clone()).collect()
}

/// Relies on `syntect::html::highlighted_html_for_string`: a pure
/// function of the source text, the syntax set, the chosen syntax and the
/// theme, whose output opens with a `<pre>` tag styled with the theme's
/// background colour.
#[verifier::external_body]
fn highlight_at(set: &SyntaxSet, theme: &Theme, index: usize, source: &str) -> (r: Result<
    String,
    String,
>)
    requires
        index < syntax_names(*set).len(),
    ensures
        match r {
            Ok(h) => highlight_html(*set, *theme, index as int, source@) == Some(h@) && h@.len()
                >= 11 && h@.subrange(0, 11) == "<pre style="@,
            Err(_) => highlight_html(*set, *theme, index as int, source@) is None,
        },
{
    let syntax = &set.syntaxes()[index];
    match syntect::html::highlighted_html_for_string(source, set, syntax, theme) {
        Ok(h) => Ok(h),
        Err(e) => Err(format!("{e}")),
    }
}

/// Equality of two texts up to ASCII case.
pub open spec fn ascii_eq_ignore_case(a: Seq<char>, b: Seq<char>) -> bool {
    a.len() == b.len() && forall|i: int|
        0 <= i < a.len() ==> spec_lower(a[i]) == spec_lower(b[i])
}

/// The first syntax of `names` whose name equals `lang` up to ASCII case.
pub open spec fn spec_find_syntax(names: Seq<Seq<char>>, lang: Seq<char>) -> Option<int>
    decreases names.len(),
{
    if names.len() == 0 {
        Option::None
    } else if ascii_eq_ignore_case(names[0], lang) {
        Option::Some(0int)
    } else {
        match spec_find_syntax(names.drop_first(), lang) {
            Option::Some(i) => Option::Some(i + 1),
            Option::None => Option::None,
        }
    }
}

/// What highlighting a fenced block comes to: nothing when the language
/// tag is unknown or the engine fails, otherwise syntect's HTML.
pub open spec fn spec_highlight(db: HighlightDb, lang: Seq<char>, source: Seq<char>) -> Option<
    Seq<char>,
> {
    match spec_find_syntax(syntax_names(db.set), lang) {
        Option::Some(i) => highlight_html(db.set, db.theme, i, source),
        Option::None => Option::None,
    }
}

fn str_eq_ignore_ascii_case(a: &str, b: &str) -> (r: bool)
    ensures
        r == ascii_eq_ignore_case(a@, b@),
{
    let na: usize = a.unicode_len();
    let nb: usize = b.unicode_len();
    if na != nb {
        return false;
    }
    let mut i: usize = 0;
    while i < na
        invariant
            na == a@.len(),
            na == b@.len(),
            i <= na,
            forall|j: int| 0 <= j < i ==> spec_lower(a@[j]) == spec_lower(b@[j]),
        decreases na - i,
    {
        let ca = a.get_char(i);
        let cb = b.get_char(i);
        if crate::slug::ascii_lower(ca) != crate::slug::ascii_lower(cb) {
            return false;
        }
        i = i + 1;
    }
    true
}

proof fn lemma_find_syntax_at(names: Seq<Seq<char>>, lang: Seq<char>, i: int)
    requires
        0 <= i <= names.len(),
        forall|j: int| 0 <= j < i ==> !ascii_eq_ignore_case(#[trigger] names[j], lang),
    ensures
        i < names.len() && ascii_eq_ignore_case(names[i], lang) ==> spec_find_syntax(names, lang)
            == Option::Some(i),
        i == names.len() ==> spec_find_syntax(names, lang) is None,
    decreases i,
{
    if i > 0 {
        let rest = names.drop_first();
        assert(forall|j: int| 0 <= j < i - 1 ==> #[trigger] rest[j] == names[j + 1]);
        lemma_find_syntax_at(rest, lang, i - 1);
        assert(!ascii_eq_ignore_case(names[0], lang));
        if i < names.len() {
            assert(rest[i - 1] == names[i]);
        }
    }
}

/// Looks the language tag up in the database, case-insensitively, and
/// renders the source through syntect under the database's theme. Fails
/// with `UnknownLang` when no syntax carries the tag's name, and with
/// `HighlightingError` when the engine itself fails.
pub fn highlight_fragment(s: &str, lang: &str, db: &HighlightDb) -> (r: Result<
    String,
    RenderError,
>)
    ensures
        match r {
            Ok(h) => spec_highlight(*db, lang@, s@) == Option::Some(h@) && h@.len() >= 11 && h@
                .subrange(0, 11) == "<pre style="@,
            Err(e) => spec_highlight(*db, lang@, s@) is None && match e {
                RenderError::UnknownLang { lang: l } => l@ == lang@ && spec_find_syntax(
                    syntax_names(db.set),
                    lang@,
                ) is None,
                RenderError::HighlightingError { .. } => spec_find_syntax(
                    syntax_names(db.set),
                    lang@,
                ) is Some,
                _ => false,
            },
        },
{
    let names = syntax_names_of(&db.set);
    let ghost names_view = names@.map_values(|t: String| t@);
    let n: usize = names.len();
    let mut i: usize = 0;
    while i < n
        invariant
            n == names@.len(),
            names_view == names@.map_values(|t: String| t@),
            names_view == syntax_names(db.set),
            i <= n,
            forall|j: int| 0 <= j < i ==> !ascii_eq_ignore_case(#[trigger] names_view[j], lang@),
        decreases n - i,
    {
        if str_eq_ignore_ascii_case(names[i].as_str(), lang) {
            proof {
                lemma_find_syntax_at(names_view, lang@, i as int);
            }
            return match highlight_at(&db.set, &db.theme, i, s) {
                Ok(h) => Ok(h),
                Err(message) => Err(RenderError::HighlightingError { message }),
            };
        }
        i = i + 1;
    }
    proof {
        lemma_find_syntax_at(names_view, lang@, n as int);
    }
    Err(RenderError::UnknownLang { lang: lang.to_owned() })
}

} // verus!
