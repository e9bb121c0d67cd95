//! The table of contents: a nested outline derived from a document's
//! headings, under a strict single-title rule.
//!
//! The outline is built with an explicit stack: each heading closes every
//! open entry at its own depth or deeper, attaching it to the entry
//! below, and then opens a fresh entry. A document must open with one
//! depth-1 heading, its title, and may never reach the title's level
//! again.

use crate::ast::Node;
use crate::ast::label_seq;
use crate::render::built;
use crate::render::concat_fragments;
use crate::slug::parameterize;
use crate::slug::slug_of;
use vstd::prelude::*;

verus! {

/// An error of table-of-contents construction: the heading shape of the
/// document breaks the single-title rule, or the document never parsed.
#[derive(Debug, PartialEq, Eq)]
pub enum MarkdownError {
    InvalidRoot,
    ErrorParsing { wrapped: String },
    FirstHeadingNotTitle,
    NoHeadings,
    ManyTitles { second_title: String },
}

/// The mathematical shape of a table-of-contents error.
pub enum MarkdownErrorSpec {
    InvalidRoot,
    ErrorParsing(Seq<char>),
    FirstHeadingNotTitle,
    NoHeadings,
    ManyTitles(Seq<char>),
}

impl View for MarkdownError {
    type V = MarkdownErrorSpec;

    open spec fn view(&self) -> MarkdownErrorSpec {
        match self {
            MarkdownError::InvalidRoot => MarkdownErrorSpec::InvalidRoot,
            MarkdownError::ErrorParsing { wrapped } => MarkdownErrorSpec::ErrorParsing(wrapped@),
            MarkdownError::FirstHeadingNotTitle => MarkdownErrorSpec::FirstHeadingNotTitle,
            MarkdownError::NoHeadings => MarkdownErrorSpec::NoHeadings,
            MarkdownError::ManyTitles { second_title } => MarkdownErrorSpec::ManyTitles(
                second_title@,
            ),
        }
    }
}

/// One entry of the table of contents: a heading's depth and flattened
/// label, and the entries nested under it.
#[derive(Debug, PartialEq, Eq)]
pub struct Toc {
    pub depth: u8,
    pub name: String,
    pub children: Vec<Toc>,
}

/// The mathematical shape of a table-of-contents entry.
pub struct TocSpec {
    pub depth: int,
    pub name: Seq<char>,
    pub children: Seq<TocSpec>,
}

impl Toc {
    /// The mathematical shape of this entry and everything below it.
    pub open spec fn deep_view(self) -> TocSpec
        decreases self,
    {
        TocSpec { depth: self.depth as int, name: self.name@, children: toc_views(self.children@) }
    }
}

/// The mathematical shapes of a sequence of entries.
pub open spec fn toc_views(s: Seq<Toc>) -> Seq<TocSpec>
    decreases s,
{
    if s.len() == 0 {
        Seq::empty()
    } else {
        seq![s[0].deep_view()] + toc_views(s.drop_first())
    }
}

pub proof fn lemma_toc_views(s: Seq<Toc>)
    ensures
        toc_views(s).len() == s.len(),
        forall|i: int| 0 <= i < s.len() ==> #[trigger] toc_views(s)[i] == s[i].deep_view(),
    decreases s.len(),
{
    if s.len() > 0 {
        lemma_toc_views(s.drop_first());
        assert forall|i: int| 0 <= i < s.len() implies #[trigger] toc_views(s)[i] == s[
            i
        ].deep_view() by {
            if i > 0 {
                assert(toc_views(s)[i] == toc_views(s.drop_first())[i - 1]);
                assert(s.drop_first()[i - 1] == s[i]);
            }
        }
    }
}

/// The document's headings, in order, each as its depth and flattened
/// label.
pub open spec fn spec_headings(s: Seq<Node>) -> Seq<(int, Seq<char>)>
    decreases s,
{
    if s.len() == 0 {
        Seq::empty()
    } else {
        let rest = spec_headings(s.drop_first());
        match s[0] {
            Node::Heading { depth, children } => seq![(depth as int, label_seq(children@))] + rest,
            _ => rest,
        }
    }
}

/// A fresh outline entry for one heading.
pub open spec fn entry_of(h: (int, Seq<char>)) -> TocSpec {
    TocSpec { depth: h.0, name: h.1, children: Seq::empty() }
}

/// Attaches `child` as the last child of `parent`.
pub open spec fn attach(parent: TocSpec, child: TocSpec) -> TocSpec {
    TocSpec { depth: parent.depth, name: parent.name, children: parent.children.push(child) }
}

/// Pops every stack entry at depth `d` or deeper, attaching each to the
/// entry below it; nothing, where that would pop the title itself.
pub open spec fn spec_close(stack: Seq<TocSpec>, d: int) -> Option<Seq<TocSpec>>
    decreases stack.len(),
{
    if stack.len() > 0 && stack.last().depth >= d {
        if stack.len() == 1 {
            Option::None
        } else {
            let merged = attach(stack[stack.len() - 2], stack.last());
            spec_close(stack.drop_last().update(stack.len() - 2, merged), d)
        }
    } else {
        Option::Some(stack)
    }
}

/// Folds the remaining headings into the stack; an error carries the
/// label of the heading that would have become a second title.
pub open spec fn spec_build_from(stack: Seq<TocSpec>, hs: Seq<(int, Seq<char>)>) -> Result<
    Seq<TocSpec>,
    Seq<char>,
>
    decreases hs.len(),
{
    if hs.len() == 0 {
        Ok(stack)
    } else {
        match spec_close(stack, hs[0].0) {
            Option::None => Err(hs[0].1),
            Option::Some(closed) => spec_build_from(closed.push(entry_of(hs[0])), hs.drop_first()),
        }
    }
}

/// Folds whatever the stack still holds, deepest first, into one root.
pub open spec fn spec_collapse(stack: Seq<TocSpec>) -> TocSpec
    decreases stack.len(),
{
    if stack.len() <= 1 {
        if stack.len() == 1 {
            stack[0]
        } else {
            arbitrary()
        }
    } else {
        let merged = attach(stack[stack.len() - 2], stack.last());
        spec_collapse(stack.drop_last().update(stack.len() - 2, merged))
    }
}

/// The table of contents of a heading sequence, or the error its shape
/// deserves: no heading at all, a first heading that is no title, or a
/// heading that reaches the title's level again.
pub open spec fn spec_build_toc(hs: Seq<(int, Seq<char>)>) -> Result<TocSpec, MarkdownErrorSpec> {
    if hs.len() == 0 {
        Err(MarkdownErrorSpec::NoHeadings)
    } else if hs[0].0 != 1 {
        Err(MarkdownErrorSpec::FirstHeadingNotTitle)
    } else {
        match spec_build_from(seq![entry_of(hs[0])], hs.drop_first()) {
            Err(second) => Err(MarkdownErrorSpec::ManyTitles(second)),
            Ok(stack) => Ok(spec_collapse(stack)),
        }
    }
}

proof fn lemma_build_from_append(
    stack: Seq<TocSpec>,
    a: Seq<(int, Seq<char>)>,
    b: Seq<(int, Seq<char>)>,
)
    ensures
        spec_build_from(stack, a + b) == (match spec_build_from(stack, a) {
            Ok(st) => spec_build_from(st, b),
            Err(x) => Err(x),
        }),
    decreases a.len(),
{
    if a.len() == 0 {
        assert(a + b =~= b);
    } else {
        assert((a + b)[0] == a[0]);
        assert((a + b).drop_first() =~= a.drop_first() + b);
        match spec_close(stack, a[0].0) {
            Option::None => {},
            Option::Some(closed) => {
                lemma_build_from_append(closed.push(entry_of(a[0])), a.drop_first(), b);
            },
        }
    }
}

/// Well-formed outline: every entry lies strictly deeper than the entry
/// it is nested under.
pub open spec fn toc_wf(t: TocSpec) -> bool
    decreases t, 1int,
{
    toc_seq_wf(t.children, t.depth)
}

pub open spec fn toc_seq_wf(cs: Seq<TocSpec>, d: int) -> bool
    decreases cs, 0int,
{
    if cs.len() == 0 {
        true
    } else {
        cs[0].depth > d && toc_wf(cs[0]) && toc_seq_wf(cs.drop_first(), d)
    }
}

proof fn lemma_toc_seq_wf_index(cs: Seq<TocSpec>, d: int)
    ensures
        toc_seq_wf(cs, d) == (forall|i: int|
            0 <= i < cs.len() ==> (#[trigger] cs[i]).depth > d && toc_wf(cs[i])),
    decreases cs.len(),
{
    if cs.len() > 0 {
        lemma_toc_seq_wf_index(cs.drop_first(), d);
        assert(forall|i: int| 0 <= i < cs.drop_first().len() ==> #[trigger] cs.drop_first()[i]
            == cs[i + 1]);
        if toc_seq_wf(cs, d) {
            assert forall|i: int|
                0 <= i < cs.len() implies (#[trigger] cs[i]).depth > d && toc_wf(cs[i]) by {
                if i > 0 {
                    assert(cs.drop_first()[i - 1] == cs[i]);
                }
            }
        }
        if forall|i: int| 0 <= i < cs.len() ==> (#[trigger] cs[i]).depth > d && toc_wf(cs[i]) {
            assert(cs[0].depth > d && toc_wf(cs[0]));
            assert(toc_seq_wf(cs.drop_first(), d));
        }
    }
}

proof fn lemma_attach_wf(p: TocSpec, c: TocSpec)
    requires
        toc_wf(p),
        toc_wf(c),
        c.depth > p.depth,
    ensures
        toc_wf(attach(p, c)),
{
    lemma_toc_seq_wf_index(p.children, p.depth);
    lemma_toc_seq_wf_index(p.children.push(c), p.depth);
}

/// A sound stack: every entry is well formed and depths rise strictly
/// from the title at the bottom to the top.
spec fn stack_ok(st: Seq<TocSpec>) -> bool {
    &&& forall|i: int| 0 <= i < st.len() ==> toc_wf(#[trigger] st[i])
    &&& forall|i: int, j: int| 0 <= i < j < st.len() ==> st[i].depth < st[j].depth
}

proof fn lemma_close_ok(st: Seq<TocSpec>, d: int)
    requires
        st.len() >= 1,
        stack_ok(st),
    ensures
        (match spec_close(st, d) {
            Option::Some(st2) => {
                &&& 1 <= st2.len() <= st.len()
                &&& (forall|i: int| 0 <= i < st2.len() ==> (#[trigger] st2[i]).depth == st[i].depth)
                &&& stack_ok(st2)
                &&& st2.last().depth < d
            },
            Option::None => true,
        }),
    decreases st.len(),
{
    if st.last().depth >= d && st.len() >= 2 {
        let merged = attach(st[st.len() - 2], st.last());
        let popped = st.drop_last().update(st.len() - 2, merged);
        lemma_attach_wf(st[st.len() - 2], st.last());
        assert(forall|i: int| 0 <= i < popped.len() ==> (#[trigger] popped[i]).depth
            == st[i].depth);
        assert(stack_ok(popped));
        lemma_close_ok(popped, d);
    }
}

proof fn lemma_build_from_ok(st: Seq<TocSpec>, hs: Seq<(int, Seq<char>)>)
    requires
        st.len() >= 1,
        stack_ok(st),
    ensures
        (match spec_build_from(st, hs) {
            Ok(st2) => st2.len() >= 1 && stack_ok(st2) && st2[0].depth == st[0].depth,
            Err(_) => true,
        }),
    decreases hs.len(),
{
    if hs.len() > 0 {
        lemma_close_ok(st, hs[0].0);
        match spec_close(st, hs[0].0) {
            Option::None => {},
            Option::Some(closed) => {
                let next = closed.push(entry_of(hs[0]));
                assert(toc_wf(entry_of(hs[0])));
                assert(stack_ok(next));
                lemma_build_from_ok(next, hs.drop_first());
            },
        }
    }
}

proof fn lemma_collapse_ok(st: Seq<TocSpec>)
    requires
        st.len() >= 1,
        stack_ok(st),
    ensures
        toc_wf(spec_collapse(st)),
        spec_collapse(st).depth == st[0].depth,
    decreases st.len(),
{
    if st.len() > 1 {
        let merged = attach(st[st.len() - 2], st.last());
        let popped = st.drop_last().update(st.len() - 2, merged);
        lemma_attach_wf(st[st.len() - 2], st.last());
        assert(forall|i: int| 0 <= i < popped.len() ==> (#[trigger] popped[i]).depth
            == st[i].depth);
        assert(stack_ok(popped));
        lemma_collapse_ok(popped);
    }
}

/// Every table of contents that builds at all is well formed: its root
/// is the depth-1 title, and each entry lies strictly deeper than the
/// entry it nests under — enforced by construction, not assumed.
pub proof fn lemma_build_toc_wf(hs: Seq<(int, Seq<char>)>)
    ensures
        (match spec_build_toc(hs) {
            Ok(t) => toc_wf(t) && t.depth == 1,
            Err(_) => true,
        }),
{
    if spec_build_toc(hs) is Ok {
        let st0 = seq![entry_of(hs[0])];
        assert(toc_wf(st0[0]));
        assert(stack_ok(st0));
        lemma_build_from_ok(st0, hs.drop_first());
        match spec_build_from(st0, hs.drop_first()) {
            Ok(st2) => {
                lemma_collapse_ok(st2);
            },
            Err(_) => {},
        }
    }
}

/// Whether `n` names some entry of the outline `t`, the root included.
pub open spec fn name_in_tree(n: Seq<char>, t: TocSpec) -> bool
    decreases t, 1int,
{
    n == t.name || name_in_forest(n, t.children)
}

pub open spec fn name_in_forest(n: Seq<char>, cs: Seq<TocSpec>) -> bool
    decreases cs, 0int,
{
    if cs.len() == 0 {
        false
    } else {
        name_in_tree(n, cs[0]) || name_in_forest(n, cs.drop_first())
    }
}

proof fn lemma_name_in_forest_index(n: Seq<char>, cs: Seq<TocSpec>)
    ensures
        name_in_forest(n, cs) == (exists|i: int|
            0 <= i < cs.len() && name_in_tree(n, #[trigger] cs[i])),
    decreases cs.len(),
{
    if cs.len() > 0 {
        lemma_name_in_forest_index(n, cs.drop_first());
        assert(forall|i: int| 0 <= i < cs.drop_first().len() ==> #[trigger] cs.drop_first()[i]
            == cs[i + 1]);
        if name_in_forest(n, cs) {
            if name_in_tree(n, cs[0]) {
                assert(name_in_tree(n, cs[0]));
            } else {
                let i = choose|i: int|
                    0 <= i < cs.drop_first().len() && name_in_tree(n, #[trigger] cs.drop_first()[i]);
                assert(name_in_tree(n, cs[i + 1]));
            }
        }
        if exists|i: int| 0 <= i < cs.len() && name_in_tree(n, #[trigger] cs[i]) {
            let i = choose|i: int| 0 <= i < cs.len() && name_in_tree(n, #[trigger] cs[i]);
            if i > 0 {
                assert(name_in_tree(n, cs.drop_first()[i - 1]));
            }
        }
    }
}

proof fn lemma_attach_names(n: Seq<char>, p: TocSpec, c: TocSpec)
    ensures
        name_in_tree(n, attach(p, c)) == (name_in_tree(n, p) || name_in_tree(n, c)),
{
    lemma_name_in_forest_index(n, p.children);
    lemma_name_in_forest_index(n, p.children.push(c));
    if name_in_forest(n, p.children) {
        let i = choose|i: int| 0 <= i < p.children.len() && name_in_tree(n, #[trigger] p.children[i]);
        assert(name_in_tree(n, p.children.push(c)[i]));
    }
    if name_in_tree(n, c) {
        assert(name_in_tree(n, p.children.push(c)[p.children.len() as int]));
    }
    if name_in_forest(n, p.children.push(c)) {
        let i = choose|i: int|
            0 <= i < p.children.push(c).len() && name_in_tree(n, #[trigger] p.children.push(c)[i]);
        if i < p.children.len() {
            assert(name_in_tree(n, p.children[i]));
        }
    }
}

proof fn lemma_close_names(n: Seq<char>, st: Seq<TocSpec>, d: int)
    requires
        spec_close(st, d) is Some,
        name_in_forest(n, spec_close(st, d)->Some_0),
    ensures
        name_in_forest(n, st),
    decreases st.len(),
{
    if st.len() > 0 && st.last().depth >= d && st.len() >= 2 {
        let merged = attach(st[st.len() - 2], st.last());
        let popped = st.drop_last().update(st.len() - 2, merged);
        lemma_close_names(n, popped, d);
        lemma_name_in_forest_index(n, popped);
        lemma_name_in_forest_index(n, st);
        let i = choose|i: int| 0 <= i < popped.len() && name_in_tree(n, #[trigger] popped[i]);
        if i == st.len() - 2 {
            lemma_attach_names(n, st[st.len() - 2], st.last());
            if name_in_tree(n, st[st.len() - 2]) {
                assert(name_in_tree(n, st[i]));
            } else {
                assert(name_in_tree(n, st[st.len() - 1]));
            }
        } else {
            assert(popped[i] == st[i]);
        }
    }
}

proof fn lemma_build_from_names(n: Seq<char>, st: Seq<TocSpec>, hs: Seq<(int, Seq<char>)>)
    requires
        spec_build_from(st, hs) is Ok,
        name_in_forest(n, spec_build_from(st, hs)->Ok_0),
    ensures
        name_in_forest(n, st) || (exists|i: int| 0 <= i < hs.len() && (#[trigger] hs[i]).1 == n),
    decreases hs.len(),
{
    if hs.len() > 0 {
        let closed = spec_close(st, hs[0].0)->Some_0;
        let next = closed.push(entry_of(hs[0]));
        lemma_build_from_names(n, next, hs.drop_first());
        if name_in_forest(n, next) {
            lemma_name_in_forest_index(n, next);
            lemma_name_in_forest_index(n, closed);
            let i = choose|i: int| 0 <= i < next.len() && name_in_tree(n, #[trigger] next[i]);
            if i < closed.len() {
                assert(name_in_tree(n, closed[i]));
                lemma_close_names(n, st, hs[0].0);
            } else {
                assert(next[i] == entry_of(hs[0]));
                assert(name_in_forest(n, entry_of(hs[0]).children) == false);
                assert(n == hs[0].1);
                assert((hs[0]).1 == n);
            }
        } else {
            let i = choose|i: int|
                0 <= i < hs.drop_first().len() && (#[trigger] hs.drop_first()[i]).1 == n;
            assert((hs[i + 1]).1 == n);
        }
    }
}

proof fn lemma_collapse_names(n: Seq<char>, st: Seq<TocSpec>)
    requires
        st.len() >= 1,
        name_in_tree(n, spec_collapse(st)),
    ensures
        name_in_forest(n, st),
    decreases st.len(),
{
    if st.len() > 1 {
        let merged = attach(st[st.len() - 2], st.last());
        let popped = st.drop_last().update(st.len() - 2, merged);
        lemma_collapse_names(n, popped);
        lemma_name_in_forest_index(n, popped);
        lemma_name_in_forest_index(n, st);
        let i = choose|i: int| 0 <= i < popped.len() && name_in_tree(n, #[trigger] popped[i]);
        if i == st.len() - 2 {
            lemma_attach_names(n, st[st.len() - 2], st.last());
            if name_in_tree(n, st[st.len() - 2]) {
                assert(name_in_tree(n, st[i]));
            } else {
                assert(name_in_tree(n, st[st.len() - 1]));
            }
        } else {
            assert(popped[i] == st[i]);
        }
    } else {
        assert(name_in_tree(n, st[0]));
    }
}

/// Every name in a built table of contents is the flattened label of
/// one of the document's headings — the same label whose slug the
/// rendered heading carries as its anchor id, so each outline link
/// targets a heading the body really has.
pub proof fn lemma_toc_names_from_headings(n: Seq<char>, hs: Seq<(int, Seq<char>)>)
    requires
        spec_build_toc(hs) is Ok,
        name_in_tree(n, spec_build_toc(hs)->Ok_0),
    ensures
        exists|i: int| 0 <= i < hs.len() && (#[trigger] hs[i]).1 == n,
{
    let st0 = seq![entry_of(hs[0])];
    assert(toc_wf(st0[0]));
    assert(stack_ok(st0));
    lemma_build_from_ok(st0, hs.drop_first());
    match spec_build_from(st0, hs.drop_first()) {
        Ok(st2) => {
            lemma_collapse_names(n, st2);
            lemma_build_from_names(n, st0, hs.drop_first());
            if name_in_forest(n, st0) {
                lemma_name_in_forest_index(n, st0);
                assert(name_in_tree(n, st0[0]));
                assert(name_in_forest(n, entry_of(hs[0]).children) == false);
                assert((hs[0]).1 == n);
            } else {
                let i = choose|i: int|
                    0 <= i < hs.drop_first().len() && (#[trigger] hs.drop_first()[i]).1 == n;
                assert((hs[i + 1]).1 == n);
            }
        },
        Err(_) => {},
    }
}

proof fn lemma_close_names_rev(n: Seq<char>, st: Seq<TocSpec>, d: int)
    requires
        spec_close(st, d) is Some,
        name_in_forest(n, st),
    ensures
        name_in_forest(n, spec_close(st, d)->Some_0),
    decreases st.len(),
{
    if st.len() > 0 && st.last().depth >= d && st.len() >= 2 {
        let merged = attach(st[st.len() - 2], st.last());
        let popped = st.drop_last().update(st.len() - 2, merged);
        lemma_name_in_forest_index(n, st);
        lemma_name_in_forest_index(n, popped);
        let i = choose|i: int| 0 <= i < st.len() && name_in_tree(n, #[trigger] st[i]);
        lemma_attach_names(n, st[st.len() - 2], st.last());
        if i < st.len() - 2 {
            assert(popped[i] == st[i]);
        } else {
            assert(name_in_tree(n, popped[st.len() - 2]));
        }
        lemma_close_names_rev(n, popped, d);
    }
}

proof fn lemma_build_from_names_rev(n: Seq<char>, st: Seq<TocSpec>, hs: Seq<(int, Seq<char>)>)
    requires
        spec_build_from(st, hs) is Ok,
        name_in_forest(n, st) || (exists|i: int| 0 <= i < hs.len() && (#[trigger] hs[i]).1 == n),
    ensures
        name_in_forest(n, spec_build_from(st, hs)->Ok_0),
    decreases hs.len(),
{
    if hs.len() > 0 {
        let closed = spec_close(st, hs[0].0)->Some_0;
        let next = closed.push(entry_of(hs[0]));
        lemma_name_in_forest_index(n, closed);
        lemma_name_in_forest_index(n, next);
        if name_in_forest(n, st) {
            lemma_close_names_rev(n, st, hs[0].0);
            let i = choose|i: int| 0 <= i < closed.len() && name_in_tree(n, #[trigger] closed[i]);
            assert(name_in_tree(n, next[i]));
            lemma_build_from_names_rev(n, next, hs.drop_first());
        } else {
            let i = choose|i: int| 0 <= i < hs.len() && (#[trigger] hs[i]).1 == n;
            if i == 0 {
                assert(name_in_tree(n, next[closed.len() as int]));
                lemma_build_from_names_rev(n, next, hs.drop_first());
            } else {
                assert((hs.drop_first()[i - 1]).1 == n);
                lemma_build_from_names_rev(n, next, hs.drop_first());
            }
        }
    }
}

proof fn lemma_collapse_names_rev(n: Seq<char>, st: Seq<TocSpec>)
    requires
        st.len() >= 1,
        name_in_forest(n, st),
    ensures
        name_in_tree(n, spec_collapse(st)),
    decreases st.len(),
{
    if st.len() > 1 {
        let merged = attach(st[st.len() - 2], st.last());
        let popped = st.drop_last().update(st.len() - 2, merged);
        lemma_name_in_forest_index(n, st);
        lemma_name_in_forest_index(n, popped);
        let i = choose|i: int| 0 <= i < st.len() && name_in_tree(n, #[trigger] st[i]);
        lemma_attach_names(n, st[st.len() - 2], st.last());
        if i < st.len() - 2 {
            assert(popped[i] == st[i]);
        } else {
            assert(name_in_tree(n, popped[st.len() - 2]));
        }
        lemma_collapse_names_rev(n, popped);
    } else {
        lemma_name_in_forest_index(n, st);
        let i = choose|i: int| 0 <= i < st.len() && name_in_tree(n, #[trigger] st[i]);
        assert(i == 0);
    }
}

/// No heading is lost: the flattened label of each of the document's
/// headings names an entry of the built table of contents.
pub proof fn lemma_toc_contains_every_heading(i: int, hs: Seq<(int, Seq<char>)>)
    requires
        spec_build_toc(hs) is Ok,
        0 <= i < hs.len(),
    ensures
        name_in_tree(hs[i].1, spec_build_toc(hs)->Ok_0),
{
    let n = hs[i].1;
    let st0 = seq![entry_of(hs[0])];
    assert(toc_wf(st0[0]));
    assert(stack_ok(st0));
    lemma_build_from_ok(st0, hs.drop_first());
    match spec_build_from(st0, hs.drop_first()) {
        Ok(st2) => {
            if i == 0 {
                lemma_name_in_forest_index(n, st0);
                assert(name_in_tree(n, st0[0]));
            } else {
                assert((hs.drop_first()[i - 1]).1 == n);
            }
            lemma_build_from_names_rev(n, st0, hs.drop_first());
            lemma_collapse_names_rev(n, st2);
        },
        Err(_) => {},
    }
}

/// The markup of one outline subtree: an ordered list of its children.
pub open spec fn spec_toc_list(t: TocSpec) -> Seq<char>
    decreases t, 0int,
{
    "<ol>"@ + spec_toc_items(t.children) + "</ol>"@
}

/// The markup of a run of sibling entries: a linked item each, and a
/// nested list after any entry that has children of its own.
pub open spec fn spec_toc_items(cs: Seq<TocSpec>) -> Seq<char>
    decreases cs, 1int,
{
    if cs.len() == 0 {
        Seq::empty()
    } else {
        "<li><a href=\"#"@ + slug_of(cs[0].name) + "\">"@ + cs[0].name + "</a></li>"@ + (if cs[
            0
        ].children.len() > 0 {
            spec_toc_list(cs[0])
        } else {
            Seq::empty()
        }) + spec_toc_items(cs.drop_first())
    }
}

proof fn lemma_close_title(stack: Seq<TocSpec>, d: int)
    requires
        stack.len() >= 1,
        stack[0].depth == 1,
        forall|k: int| 0 <= k < stack.len() ==> #[trigger] stack[k].depth >= 1,
        d > 1,
    ensures
        spec_close(stack, d) is Some,
        spec_close(stack, d)->Some_0.len() >= 1,
        spec_close(stack, d)->Some_0[0].depth == 1,
        forall|k: int|
            0 <= k < spec_close(stack, d)->Some_0.len() ==> #[trigger] spec_close(
                stack,
                d,
            )->Some_0[k].depth >= 1,
    decreases stack.len(),
{
    if stack.last().depth >= d {
        assert(stack.len() >= 2);
        let merged = attach(stack[stack.len() - 2], stack.last());
        let popped = stack.drop_last().update(stack.len() - 2, merged);
        assert(popped[0].depth == 1);
        assert(forall|k: int| 0 <= k < popped.len() ==> #[trigger] popped[k].depth >= 1);
        lemma_close_title(popped, d);
    }
}

proof fn lemma_close_all(stack: Seq<TocSpec>, d: int)
    requires
        stack.len() >= 1,
        forall|k: int| 0 <= k < stack.len() ==> #[trigger] stack[k].depth >= d,
    ensures
        spec_close(stack, d) is None,
    decreases stack.len(),
{
    if stack.len() > 1 {
        let merged = attach(stack[stack.len() - 2], stack.last());
        let popped = stack.drop_last().update(stack.len() - 2, merged);
        assert(forall|k: int| 0 <= k < popped.len() ==> #[trigger] popped[k].depth >= d);
        lemma_close_all(popped, d);
    }
}

proof fn lemma_build_from_title(stack: Seq<TocSpec>, hs: Seq<(int, Seq<char>)>)
    requires
        stack.len() >= 1,
        stack[0].depth == 1,
        forall|k: int| 0 <= k < stack.len() ==> #[trigger] stack[k].depth >= 1,
        forall|i: int| 0 <= i < hs.len() ==> #[trigger] hs[i].0 > 1,
    ensures
        spec_build_from(stack, hs) is Ok,
        spec_build_from(stack, hs)->Ok_0.len() >= 1,
        spec_build_from(stack, hs)->Ok_0[0].depth == 1,
    decreases hs.len(),
{
    if hs.len() > 0 {
        lemma_close_title(stack, hs[0].0);
        let closed = spec_close(stack, hs[0].0)->Some_0;
        let next = closed.push(entry_of(hs[0]));
        assert(next[0].depth == 1);
        assert(forall|k: int| 0 <= k < next.len() ==> #[trigger] next[k].depth >= 1);
        assert(forall|i: int|
            0 <= i < hs.drop_first().len() ==> #[trigger] hs.drop_first()[i].0 > 1);
        lemma_build_from_title(next, hs.drop_first());
    }
}

proof fn lemma_collapse_title(stack: Seq<TocSpec>)
    requires
        stack.len() >= 1,
        stack[0].depth == 1,
    ensures
        spec_collapse(stack).depth == 1,
    decreases stack.len(),
{
    if stack.len() > 1 {
        let merged = attach(stack[stack.len() - 2], stack.last());
        let popped = stack.drop_last().update(stack.len() - 2, merged);
        assert(popped[0].depth == 1);
        lemma_collapse_title(popped);
    }
}

/// Every document whose first heading is the depth-1 title, and whose
/// later headings are all deeper, gets a table of contents whose root
/// has depth 1.
pub proof fn lemma_build_toc_title(hs: Seq<(int, Seq<char>)>)
    requires
        hs.len() > 0,
        hs[0].0 == 1,
        forall|i: int| 1 <= i < hs.len() ==> #[trigger] hs[i].0 > 1,
    ensures
        spec_build_toc(hs) is Ok,
        spec_build_toc(hs)->Ok_0.depth == 1,
{
    let stack0 = seq![entry_of(hs[0])];
    assert(forall|i: int|
        0 <= i < hs.drop_first().len() ==> #[trigger] hs.drop_first()[i].0 > 1);
    lemma_build_from_title(stack0, hs.drop_first());
    lemma_collapse_title(spec_build_from(stack0, hs.drop_first())->Ok_0);
}

/// A document without headings is refused as `NoHeadings`; one whose
/// first heading is not at depth 1 is refused as `FirstHeadingNotTitle`.
pub proof fn lemma_build_toc_errors(hs: Seq<(int, Seq<char>)>)
    ensures
        hs.len() == 0 ==> spec_build_toc(hs) == Err::<TocSpec, MarkdownErrorSpec>(
            MarkdownErrorSpec::NoHeadings,
        ),
        hs.len() > 0 && hs[0].0 != 1 ==> spec_build_toc(hs) == Err::<TocSpec, MarkdownErrorSpec>(
            MarkdownErrorSpec::FirstHeadingNotTitle,
        ),
{
}

/// A heading that comes back to the title's depth fails the build as
/// `ManyTitles`, named after that heading's label — even when every
/// earlier subtree was already closed.
pub proof fn lemma_build_toc_many_titles(hs: Seq<(int, Seq<char>)>, j: int)
    requires
        hs.len() > 0,
        hs[0].0 == 1,
        1 <= j < hs.len(),
        hs[j].0 <= 1,
        forall|i: int| 1 <= i < j ==> #[trigger] hs[i].0 > 1,
    ensures
        spec_build_toc(hs) == Err::<TocSpec, MarkdownErrorSpec>(
            MarkdownErrorSpec::ManyTitles(hs[j].1),
        ),
{
    let stack0 = seq![entry_of(hs[0])];
    let rest = hs.drop_first();
    let a = rest.subrange(0, j - 1);
    let b = rest.subrange(j - 1, rest.len() as int);
    assert(rest =~= a + b);
    assert(forall|i: int| 0 <= i < a.len() ==> #[trigger] a[i].0 > 1);
    lemma_build_from_title(stack0, a);
    lemma_build_from_append(stack0, a, b);
    let st = spec_build_from(stack0, a)->Ok_0;
    assert(b[0] == hs[j]);
    assert(forall|k: int| 0 <= k < st.len() ==> #[trigger] st[k].depth >= hs[j].0) by {
        lemma_build_from_depths(stack0, a);
    };
    lemma_close_all(st, hs[j].0);
    assert(spec_build_from(st, b) == Err::<Seq<TocSpec>, Seq<char>>(hs[j].1));
}

proof fn lemma_build_from_depths(stack: Seq<TocSpec>, hs: Seq<(int, Seq<char>)>)
    requires
        stack.len() >= 1,
        stack[0].depth == 1,
        forall|k: int| 0 <= k < stack.len() ==> #[trigger] stack[k].depth >= 1,
        forall|i: int| 0 <= i < hs.len() ==> #[trigger] hs[i].0 > 1,
    ensures
        spec_build_from(stack, hs) is Ok,
        forall|k: int|
            0 <= k < spec_build_from(stack, hs)->Ok_0.len() ==> #[trigger] spec_build_from(
                stack,
                hs,
            )->Ok_0[k].depth >= 1,
    decreases hs.len(),
{
    lemma_build_from_title(stack, hs);
    if hs.len() == 0 {
    } else {
        lemma_close_title(stack, hs[0].0);
        let closed = spec_close(stack, hs[0].0)->Some_0;
        let next = closed.push(entry_of(hs[0]));
        assert(forall|k: int| 0 <= k < next.len() ==> #[trigger] next[k].depth >= 1);
        assert(forall|i: int|
            0 <= i < hs.drop_first().len() ==> #[trigger] hs.drop_first()[i].0 > 1);
        lemma_build_from_depths(next, hs.drop_first());
    }
}

proof fn lemma_toc_views_push(s: Seq<Toc>, t: Toc)
    ensures
        toc_views(s.push(t)) == toc_views(s).push(t.deep_view()),
{
    lemma_toc_views(s);
    lemma_toc_views(s.push(t));
    assert(toc_views(s.push(t)) =~= toc_views(s).push(t.deep_view()));
}

/// One pop-and-attach step of the stack, seen through the views: the
/// last entry moves under the one below it.
proof fn lemma_merge_step(pre: Seq<Toc>, now: Seq<Toc>)
    requires
        pre.len() >= 2,
        now.len() == pre.len() - 1,
        forall|k: int| 0 <= k < pre.len() - 2 ==> now[k] == pre[k],
        now[now.len() - 1].depth == pre[pre.len() - 2].depth,
        now[now.len() - 1].name == pre[pre.len() - 2].name,
        now[now.len() - 1].children@ == pre[pre.len() - 2].children@.push(pre[pre.len() - 1]),
    ensures
        toc_views(now) == toc_views(pre).drop_last().update(
            pre.len() - 2,
            attach(toc_views(pre)[pre.len() - 2], toc_views(pre).last()),
        ),
{
    lemma_toc_views(pre);
    lemma_toc_views(now);
    lemma_toc_views_push(pre[pre.len() - 2].children@, pre[pre.len() - 1]);
    assert(now[now.len() - 1].deep_view() == attach(
        pre[pre.len() - 2].deep_view(),
        pre[pre.len() - 1].deep_view(),
    ));
    assert(toc_views(now) =~= toc_views(pre).drop_last().update(
        pre.len() - 2,
        attach(toc_views(pre)[pre.len() - 2], toc_views(pre).last()),
    ));
}

impl Toc {
    /// Builds the table of contents from the children of the document
    /// root, enforcing the single-title rule: the first heading is the
    /// depth-1 title, no heading is ever that shallow again, and every
    /// other heading nests under the nearest shallower one before it.
    #[verifier::loop_isolation(false)]
    pub fn from_mdast(root_children: &Vec<Node>) -> (r: Result<Toc, MarkdownError>)
        ensures
            r matches Ok(t) ==> spec_build_toc(spec_headings(root_children@)) == Ok::<
                TocSpec,
                MarkdownErrorSpec,
            >(t.deep_view()),
            r matches Err(e) ==> spec_build_toc(spec_headings(root_children@)) == Err::<
                TocSpec,
                MarkdownErrorSpec,
            >(e@),
    {
        let ghost hs = spec_headings(root_children@);
        let n: usize = root_children.len();
        let mut stack: Vec<Toc> = Vec::new();
        let ghost mut done: Seq<(int, Seq<char>)> = Seq::empty();
        let mut i: usize = 0;
        proof {
            assert(root_children@.subrange(0, n as int) =~= root_children@);
            assert(done + hs =~= hs);
        }
        while i < n
            invariant
                n == root_children@.len(),
                i <= n,
                hs == spec_headings(root_children@),
                hs == done + spec_headings(root_children@.subrange(i as int, n as int)),
                (done.len() == 0) == (stack@.len() == 0),
                done.len() > 0 ==> done[0].0 == 1 && spec_build_from(
                    seq![entry_of(done[0])],
                    done.drop_first(),
                ) == Ok::<Seq<TocSpec>, Seq<char>>(toc_views(stack@)),
            decreases n - i,
        {
            let ghost tail = root_children@.subrange(i as int, n as int);
            proof {
                assert(tail[0] == root_children@[i as int]);
                assert(tail.drop_first() =~= root_children@.subrange(i as int + 1, n as int));
            }
            let node = &root_children[i];
            match node {
                Node::Heading { depth, children } => {
                    let d: u8 = *depth;
                    let name = node.label();
                    let ghost h = (d as int, label_seq(children@));
                    let ghost rest_hs = spec_headings(tail.drop_first());
                    proof {
                        assert(spec_headings(tail) == seq![h] + rest_hs);
                        assert(name@ == h.1);
                    }
                    if stack.len() == 0 {
                        if d != 1 {
                            proof {
                                assert(hs == spec_headings(tail));
                                assert(hs[0] == h);
                            }
                            return Err(MarkdownError::FirstHeadingNotTitle);
                        }
                        let entry = Toc { depth: d, name, children: Vec::new() };
                        stack.push(entry);
                        proof {
                            lemma_toc_views(stack@);
                            assert(toc_views(stack@[0].children@) =~= Seq::<TocSpec>::empty());
                            assert(stack@[0].deep_view() == entry_of(h));
                            assert(toc_views(stack@) =~= seq![entry_of(h)]);
                            done = done.push(h);
                            assert(done =~= seq![h]);
                            assert(done.drop_first() =~= Seq::<(int, Seq<char>)>::empty());
                            assert(hs =~= done + rest_hs);
                        }
                    } else {
                        let ghost entry_views = toc_views(stack@);
                        while stack[stack.len() - 1].depth >= d
                            invariant
                                stack@.len() >= 1,
                                spec_close(entry_views, d as int) == spec_close(
                                    toc_views(stack@),
                                    d as int,
                                ),
                            decreases stack@.len(),
                        {
                            let ghost pre = stack@;
                            proof {
                                lemma_toc_views(pre);
                            }
                            let child = stack.pop().unwrap();
                            if stack.len() == 0 {
                                proof {
                                    assert(pre.len() == 1);
                                    assert(toc_views(pre).last().depth >= d as int);
                                    assert(spec_close(toc_views(pre), d as int) is None);
                                    assert(spec_close(entry_views, d as int) is None);
                                    lemma_build_from_append(
                                        seq![entry_of(done[0])],
                                        done.drop_first(),
                                        seq![h] + rest_hs,
                                    );
                                    assert((seq![h] + rest_hs)[0] == h);
                                    assert(spec_build_from(entry_views, seq![h] + rest_hs)
                                        == Err::<Seq<TocSpec>, Seq<char>>(h.1));
                                    assert(hs.drop_first() =~= done.drop_first() + (seq![h]
                                        + rest_hs));
                                    assert(hs[0] == done[0]);
                                    assert(spec_build_from(seq![entry_of(hs[0])], hs.drop_first())
                                        == Err::<Seq<TocSpec>, Seq<char>>(h.1));
                                }
                                return Err(MarkdownError::ManyTitles { second_title: name });
                            }
                            let mut parent = stack.pop().unwrap();
                            parent.children.push(child);
                            stack.push(parent);
                            proof {
                                lemma_merge_step(pre, stack@);
                                assert(spec_close(toc_views(pre), d as int) == spec_close(
                                    toc_views(stack@),
                                    d as int,
                                ));
                            }
                        }
                        proof {
                            lemma_toc_views(stack@);
                            assert(toc_views(stack@).last().depth < d as int);
                            assert(spec_close(toc_views(stack@), d as int) == Option::Some(
                                toc_views(stack@),
                            ));
                        }
                        let ghost closed_views = toc_views(stack@);
                        let entry = Toc { depth: d, name, children: Vec::new() };
                        stack.push(entry);
                        proof {
                            let ghost pushed = stack@;
                            lemma_toc_views(pushed);
                            assert(toc_views(pushed[pushed.len() - 1].children@) =~= Seq::<
                                TocSpec,
                            >::empty());
                            assert(pushed[pushed.len() - 1].deep_view() == entry_of(h));
                            assert(pushed.drop_last() =~= pushed.subrange(
                                0,
                                pushed.len() - 1,
                            ));
                            lemma_toc_views_push(pushed.drop_last(), pushed[pushed.len() - 1]);
                            assert(pushed.drop_last().push(pushed[pushed.len() - 1]) =~= pushed);
                            assert(toc_views(stack@) == toc_views(pushed.drop_last()).push(
                                entry_of(h),
                            ));
                            assert(toc_views(pushed.drop_last()) =~= closed_views) by {
                                lemma_toc_views(pushed.drop_last());
                            };
                            lemma_build_from_append(
                                seq![entry_of(done[0])],
                                done.drop_first(),
                                seq![h],
                            );
                            assert(seq![h][0] == h);
                            assert(seq![h].drop_first() =~= Seq::<(int, Seq<char>)>::empty());
                            assert(spec_build_from(
                                closed_views.push(entry_of(h)),
                                seq![h].drop_first(),
                            ) == Ok::<Seq<TocSpec>, Seq<char>>(closed_views.push(entry_of(h))));
                            assert(spec_build_from(entry_views, seq![h]) == Ok::<
                                Seq<TocSpec>,
                                Seq<char>,
                            >(closed_views.push(entry_of(h))));
                            let done2 = done.push(h);
                            assert(done2.drop_first() =~= done.drop_first() + seq![h]);
                            assert(done2[0] == done[0]);
                            done = done2;
                            assert(hs =~= done + rest_hs);
                        }
                    }
                },
                _ => {
                    proof {
                        assert(spec_headings(tail) == spec_headings(tail.drop_first()));
                    }
                },
            }
            i = i + 1;
        }
        proof {
            assert(root_children@.subrange(n as int, n as int) =~= Seq::<Node>::empty());
            assert(hs =~= done);
        }
        if stack.len() == 0 {
            return Err(MarkdownError::NoHeadings);
        }
        let ghost v0 = toc_views(stack@);
        proof {
            assert(hs.len() > 0);
            assert(hs[0] == done[0]);
            assert(hs.drop_first() =~= done.drop_first());
            assert(spec_build_from(seq![entry_of(hs[0])], hs.drop_first()) == Ok::<
                Seq<TocSpec>,
                Seq<char>,
            >(v0));
        }
        while stack.len() > 1
            invariant
                stack@.len() >= 1,
                spec_collapse(v0) == spec_collapse(toc_views(stack@)),
            decreases stack@.len(),
        {
            let ghost pre = stack@;
            let child = stack.pop().unwrap();
            let mut parent = stack.pop().unwrap();
            parent.children.push(child);
            stack.push(parent);
            proof {
                lemma_merge_step(pre, stack@);
                lemma_toc_views(pre);
                assert(spec_collapse(toc_views(pre)) == spec_collapse(toc_views(stack@)));
            }
        }
        let ghost pre_final = stack@;
        let root = stack.pop().unwrap();
        proof {
            lemma_toc_views(pre_final);
            assert(spec_collapse(toc_views(pre_final)) == toc_views(pre_final)[0]);
            assert(root == pre_final[0]);
            assert(spec_collapse(v0) == root.deep_view());
        }
        Ok(root)
    }

    /// The markup of the table of contents: nothing when the document
    /// has no sub-headings, otherwise the nested ordered list of every
    /// entry below the root, each item linking its entry's slug anchor.
    pub fn to_html(&self) -> (r: Option<String>)
        ensures
            self.children@.len() == 0 ==> r is None,
            self.children@.len() > 0 ==> (r matches Some(h) && h@ == spec_toc_list(
                self.deep_view(),
            )),
    {
        if self.children.len() == 0 {
            return Option::None;
        }
        let mut builder: Vec<String> = Vec::new();
        self.child_html_builder(&mut builder);
        proof {
            assert(built(Seq::<String>::empty()) + spec_toc_list(self.deep_view())
                =~= spec_toc_list(self.deep_view()));
        }
        Option::Some(concat_fragments(&builder))
    }

    #[verifier::loop_isolation(false)]
    fn child_html_builder(&self, builder: &mut Vec<String>)
        ensures
            built(final(builder)@) == built(old(builder)@) + spec_toc_list(self.deep_view()),
        decreases *self,
    {
        crate::render::push_fragment(builder, "<ol>");
        let ghost cviews = toc_views(self.children@);
        let ghost mut acc: Seq<char> = Seq::empty();
        let n: usize = self.children.len();
        let mut i: usize = 0;
        proof {
            lemma_toc_views(self.children@);
            assert(cviews.subrange(0, n as int) =~= cviews);
            assert(acc + spec_toc_items(cviews) =~= spec_toc_items(cviews));
            assert(built(builder@) =~= built(old(builder)@) + ("<ol>"@ + acc));
        }
        while i < n
            invariant
                n == self.children@.len(),
                n == cviews.len(),
                i <= n,
                built(builder@) == built(old(builder)@) + ("<ol>"@ + acc),
                spec_toc_items(cviews) == acc + spec_toc_items(
                    cviews.subrange(i as int, n as int),
                ),
            decreases n - i,
        {
            let ghost tail = cviews.subrange(i as int, n as int);
            proof {
                assert(tail[0] == cviews[i as int]);
                assert(tail.drop_first() =~= cviews.subrange(i as int + 1, n as int));
            }
            let child = &self.children[i];
            proof {
                assert(cviews[i as int] == child.deep_view());
            }
            crate::render::push_fragment(builder, "<li><a href=\"#");
            crate::render::push_owned(builder, parameterize(child.name.as_str()));
            crate::render::push_fragment(builder, "\">");
            crate::render::push_fragment(builder, child.name.as_str());
            crate::render::push_fragment(builder, "</a></li>");
            let ghost item = "<li><a href=\"#"@ + slug_of(child.name@) + "\">"@ + child.name@
                + "</a></li>"@;
            proof {
                lemma_toc_views(child.children@);
            }
            if child.children.len() > 0 {
                child.child_html_builder(builder);
                proof {
                    assert(built(builder@) =~= built(old(builder)@) + ("<ol>"@ + (acc + (item
                        + spec_toc_list(child.deep_view())))));
                    assert(spec_toc_items(tail) == item + spec_toc_list(cviews[i as int])
                        + spec_toc_items(tail.drop_first()));
                    assert(acc + (item + spec_toc_list(child.deep_view())) + spec_toc_items(
                        tail.drop_first(),
                    ) =~= acc + spec_toc_items(tail));
                    acc = acc + (item + spec_toc_list(child.deep_view()));
                }
            } else {
                proof {
                    assert(built(builder@) =~= built(old(builder)@) + ("<ol>"@ + (acc + item)));
                    assert(spec_toc_items(tail) == item + Seq::<char>::empty() + spec_toc_items(
                        tail.drop_first(),
                    ));
                    assert(acc + item + spec_toc_items(tail.drop_first()) =~= acc + spec_toc_items(
                        tail,
                    ));
                    assert(item + Seq::<char>::empty() =~= item);
                    acc = acc + item;
                }
            }
            i = i + 1;
        }
        crate::render::push_fragment(builder, "</ol>");
        proof {
            assert(cviews.subrange(n as int, n as int) =~= Seq::<TocSpec>::empty());
            assert(acc + Seq::<char>::empty() =~= acc);
            assert(spec_toc_items(cviews) == acc);
            assert(built(builder@) =~= built(old(builder)@) + ("<ol>"@ + spec_toc_items(cviews)
                + "</ol>"@));
        }
    }
}

} // verus!
