//! Rendering a document tree to HTML body fragments.
//!
//! `mdast_into_str_builder` walks the tree once, in document order, and
//! appends HTML fragments to a caller-supplied builder; the concatenation
//! of those fragments is pinned down, node kind by node kind, by
//! `spec_render`. Any error aborts the render of the whole document.

use crate::ast::AlignKind;
use crate::ast::Node;
use crate::ast::label_seq;
use crate::highlight::HighlightDb;
use crate::highlight::highlight_fragment;
use crate::highlight::spec_highlight;
use crate::slug::parameterize;
use crate::slug::slug_of;
use vstd::prelude::*;

verus! {

/// An error of body rendering. Every variant aborts the document except
/// highlighting failures, which the renderer absorbs into a plain code
/// block.
#[derive(Debug, PartialEq, Eq)]
pub enum RenderError {
    HighlightingError { message: String },
    UnknownLang { lang: String },
    HeaderTooDeep,
    NodeNotSupported { node_type: String },
    InternalError,
}

/// The mathematical shape of a render error; the message of a
/// highlighting failure carries no meaning of its own.
pub enum RenderErrorSpec {
    Highlighting,
    UnknownLang(Seq<char>),
    HeaderTooDeep,
    NodeNotSupported(Seq<char>),
    Internal,
}

impl View for RenderError {
    type V = RenderErrorSpec;

    open spec fn view(&self) -> RenderErrorSpec {
        match self {
            RenderError::HighlightingError { .. } => RenderErrorSpec::Highlighting,
            RenderError::UnknownLang { lang } => RenderErrorSpec::UnknownLang(lang@),
            RenderError::HeaderTooDeep => RenderErrorSpec::HeaderTooDeep,
            RenderError::NodeNotSupported { node_type } => RenderErrorSpec::NodeNotSupported(
                node_type@,
            ),
            RenderError::InternalError => RenderErrorSpec::Internal,
        }
    }
}

/// The tag name of a heading of the given depth, `h1` through `h6`.
pub open spec fn heading_tag(depth: u8) -> Seq<char> {
    if depth == 1 {
        "h1"@
    } else if depth == 2 {
        "h2"@
    } else if depth == 3 {
        "h3"@
    } else if depth == 4 {
        "h4"@
    } else if depth == 5 {
        "h5"@
    } else {
        "h6"@
    }
}

/// The unhighlighted fallback for a fenced code block.
pub open spec fn plain_code_block(value: Seq<char>) -> Seq<char> {
    "<pre style=\"background-color:#2b303b;\"><code>"@ + value + "</code></pre>"@
}

/// Wraps successfully rendered children in an enclosing tag pair.
pub open spec fn spec_wrap(
    inner: Result<Seq<char>, RenderErrorSpec>,
    before: Seq<char>,
    after: Seq<char>,
) -> Result<Seq<char>, RenderErrorSpec> {
    match inner {
        Ok(h) => Ok(before + h + after),
        Err(e) => Err(e),
    }
}

/// The opening tag of one table cell: `th` for the header row, `td`
/// below it, with an `align` attribute unless the column is unaligned.
pub open spec fn cell_open(header: bool, align: AlignKind) -> Seq<char> {
    if header {
        match align {
            AlignKind::Unset => "<th>"@,
            AlignKind::Left => "<th align='left'>"@,
            AlignKind::Right => "<th align='right'>"@,
            AlignKind::Center => "<th align='center'>"@,
        }
    } else {
        match align {
            AlignKind::Unset => "<td>"@,
            AlignKind::Left => "<td align='left'>"@,
            AlignKind::Right => "<td align='right'>"@,
            AlignKind::Center => "<td align='center'>"@,
        }
    }
}

pub open spec fn cell_close(header: bool) -> Seq<char> {
    if header {
        "</th>"@
    } else {
        "</td>"@
    }
}

/// The HTML of one node. Containers wrap their children's HTML; text and
/// raw HTML pass through verbatim; headings carry the slug of their
/// flattened label as anchor id; fenced code goes through the highlighter
/// and falls back to a plain block when highlighting cannot help;
/// unsupported kinds and malformed tables fail.
pub open spec fn spec_render(node: Node, db: HighlightDb) -> Result<Seq<char>, RenderErrorSpec>
    decreases node, 0int,
{
    match node {
        Node::Root { children } => spec_render_seq(children@, db),
        Node::Paragraph { children } => spec_wrap(spec_render_seq(children@, db), "<p>"@, "</p>"@),
        Node::Emphasis { children } => spec_wrap(
            spec_render_seq(children@, db),
            "<em>"@,
            "</em>"@,
        ),
        Node::Strong { children } => spec_wrap(
            spec_render_seq(children@, db),
            "<strong>"@,
            "</strong>"@,
        ),
        Node::Delete { children } => spec_wrap(
            spec_render_seq(children@, db),
            "<del>"@,
            "</del>"@,
        ),
        Node::List { children } => spec_wrap(spec_render_seq(children@, db), "<ol>"@, "</ol>"@),
        Node::ListItem { children } => spec_wrap(spec_render_seq(children@, db), "<li>"@, "</li>"@),
        Node::BlockQuote { children } => spec_wrap(
            spec_render_seq(children@, db),
            "<blockquote>"@,
            "</blockquote>"@,
        ),
        Node::Text { value } => Ok(value@),
        Node::Html { value } => Ok(value@),
        Node::InlineCode { value } => Ok("<code>"@ + value@ + "</code>"@),
        Node::Break => Ok("<br />"@),
        Node::ThematicBreak => Ok("<hr />"@),
        Node::Link { url, title, children } => spec_wrap(
            spec_render_seq(children@, db),
            "<a href=\""@ + url@ + (match title {
                Option::Some(t) => "\" title=\""@ + t@,
                Option::None => Seq::empty(),
            }) + "\">"@,
            "</a>"@,
        ),
        Node::Heading { depth, children } => {
            if 1 <= depth && depth <= 6 {
                spec_wrap(
                    spec_render_seq(children@, db),
                    "<"@ + heading_tag(depth) + " id=\""@ + slug_of(label_seq(children@)) + "\">"@,
                    "</"@ + heading_tag(depth) + ">"@,
                )
            } else {
                Err(RenderErrorSpec::HeaderTooDeep)
            }
        },
        Node::Code { value, lang } => Ok(
            match lang {
                Option::Some(l) => match spec_highlight(db, l@, value@) {
                    Option::Some(h) => h,
                    Option::None => plain_code_block(value@),
                },
                Option::None => plain_code_block(value@),
            },
        ),
        Node::Table { align, children } => spec_render_table(children@, align@, db),
        Node::TableRow { .. } => Err(RenderErrorSpec::Internal),
        Node::TableCell { .. } => Err(RenderErrorSpec::Internal),
        Node::FootnoteReference { identifier, label } => Ok(
            match label {
                Option::Some(l) => "<sup><a href=\"#"@ + slug_of(l@) + "\">"@ + identifier@
                    + "</a></sup>"@,
                Option::None => identifier@,
            },
        ),
        Node::FootnoteDefinition { identifier, label, children } => spec_wrap(
            spec_render_seq(children@, db),
            "<div class=\"footnote-definition\" id=\""@ + identifier@
                + "\"><div class=\"footnote-definition-label\">"@ + (match label {
                Option::Some(l) => l@,
                Option::None => identifier@,
            }) + "</div>"@,
            "</div>"@,
        ),
        Node::Toml { .. } => Ok(Seq::empty()),
        Node::Yaml { .. } => Ok(Seq::empty()),
        Node::Image => Err(RenderErrorSpec::NodeNotSupported("Images"@)),
        Node::ImageReference => Err(RenderErrorSpec::NodeNotSupported("Images"@)),
        Node::LinkReference { .. } => Err(
            RenderErrorSpec::NodeNotSupported("Reference Style Links"@),
        ),
        Node::Definition => Err(RenderErrorSpec::NodeNotSupported("Definitions"@)),
        Node::Math { .. } => Err(RenderErrorSpec::NodeNotSupported("Maths"@)),
        Node::InlineMath { .. } => Err(RenderErrorSpec::NodeNotSupported("Maths"@)),
        Node::Mdx => Err(RenderErrorSpec::NodeNotSupported("JSX"@)),
    }
}

/// The HTML of a sequence of sibling nodes, in order; the first error
/// aborts the sequence.
pub open spec fn spec_render_seq(s: Seq<Node>, db: HighlightDb) -> Result<
    Seq<char>,
    RenderErrorSpec,
>
    decreases s, 0int,
{
    if s.len() == 0 {
        Ok(Seq::empty())
    } else {
        match spec_render(s[0], db) {
            Err(e) => Err(e),
            Ok(h) => match spec_render_seq(s.drop_first(), db) {
                Err(e) => Err(e),
                Ok(t) => Ok(h + t),
            },
        }
    }
}

/// The HTML of a whole table: the first row supplies the headers, the
/// rest the body. A table without rows, a child that is no table row, a
/// cell that is no table cell, or a row whose width differs from the
/// alignment list is a malformed tree and fails `Internal`.
pub open spec fn spec_render_table(
    rows: Seq<Node>,
    align: Seq<AlignKind>,
    db: HighlightDb,
) -> Result<Seq<char>, RenderErrorSpec>
    decreases rows, 2int,
{
    if rows.len() == 0 {
        Err(RenderErrorSpec::Internal)
    } else {
        match rows[0] {
            Node::TableRow { children } => match spec_render_cells(children@, align, true, db) {
                Err(e) => Err(e),
                Ok(head) => match spec_render_rows(rows.drop_first(), align, db) {
                    Err(e) => Err(e),
                    Ok(body) => Ok(
                        "<table><thead><tr>"@ + head + "</tr></thead><tbody>"@ + body
                            + "</tbody></table>"@,
                    ),
                },
            },
            _ => Err(RenderErrorSpec::Internal),
        }
    }
}

/// The HTML of the body rows of a table.
pub open spec fn spec_render_rows(
    rows: Seq<Node>,
    align: Seq<AlignKind>,
    db: HighlightDb,
) -> Result<Seq<char>, RenderErrorSpec>
    decreases rows, 2int,
{
    if rows.len() == 0 {
        Ok(Seq::empty())
    } else {
        match rows[0] {
            Node::TableRow { children } => match spec_render_cells(children@, align, false, db) {
                Err(e) => Err(e),
                Ok(row) => match spec_render_rows(rows.drop_first(), align, db) {
                    Err(e) => Err(e),
                    Ok(rest) => Ok(row + rest),
                },
            },
            _ => Err(RenderErrorSpec::Internal),
        }
    }
}

/// The HTML of the cells of one table row, zipped against the alignment
/// list; a width mismatch is a malformed tree.
pub open spec fn spec_render_cells(
    cells: Seq<Node>,
    align: Seq<AlignKind>,
    header: bool,
    db: HighlightDb,
) -> Result<Seq<char>, RenderErrorSpec>
    decreases cells, 1int,
{
    if cells.len() != align.len() {
        Err(RenderErrorSpec::Internal)
    } else {
        spec_render_cells_rec(cells, align, header, db)
    }
}

pub open spec fn spec_render_cells_rec(
    cells: Seq<Node>,
    align: Seq<AlignKind>,
    header: bool,
    db: HighlightDb,
) -> Result<Seq<char>, RenderErrorSpec>
    decreases cells, 0int,
{
    if cells.len() == 0 {
        Ok(Seq::empty())
    } else {
        match cells[0] {
            Node::TableCell { children } => match spec_render_seq(children@, db) {
                Err(e) => Err(e),
                Ok(inner) => match spec_render_cells_rec(
                    cells.drop_first(),
                    align.drop_first(),
                    header,
                    db,
                ) {
                    Err(e) => Err(e),
                    Ok(rest) => Ok(
                        cell_open(header, align[0]) + inner + cell_close(header) + rest,
                    ),
                },
            },
            _ => Err(RenderErrorSpec::Internal),
        }
    }
}

/// What a fragment builder has accumulated: the concatenation of its
/// fragments.
pub open spec fn built(frags: Seq<String>) -> Seq<char> {
    frags.map_values(|s: String| s@).flatten()
}

pub broadcast proof fn lemma_built_push(frags: Seq<String>, s: String)
    ensures
        built(#[trigger] frags.push(s)) == built(frags) + s@,
{
    broadcast use vstd::seq_lib::group_seq_properties;

    assert(frags.push(s).map_values(|t: String| t@) =~= frags.map_values(|t: String| t@).push(
        s@,
    ));
    frags.map_values(|t: String| t@).lemma_flatten_push(s@);
}

/// A fenced code block never fails the render: a known language tag
/// yields the highlighter's markup, every other outcome the plain
/// unhighlighted block — the one place a lower error is absorbed.
pub proof fn lemma_code_never_fails(value: String, lang: Option<String>, db: HighlightDb)
    ensures
        spec_render((Node::Code { value, lang }), db) is Ok,
        (match lang {
            Option::Some(l) => match spec_highlight(db, l@, value@) {
                Option::Some(h) => spec_render((Node::Code { value, lang }), db) == Ok::<
                    Seq<char>,
                    RenderErrorSpec,
                >(h),
                Option::None => spec_render((Node::Code { value, lang }), db) == Ok::<
                    Seq<char>,
                    RenderErrorSpec,
                >(plain_code_block(value@)),
            },
            Option::None => spec_render((Node::Code { value, lang }), db) == Ok::<
                Seq<char>,
                RenderErrorSpec,
            >(plain_code_block(value@)),
        }),
{
}

/// The shape a table's children must have for a render to succeed:
/// a header row first, every child a table row as wide as the alignment
/// list, holding table cells only.
pub open spec fn table_shape_ok(rows: Seq<Node>, width: int) -> bool {
    rows.len() > 0 && forall|j: int|
        0 <= j < rows.len() ==> row_shape_ok(#[trigger] rows[j], width)
}

pub open spec fn row_shape_ok(row: Node, width: int) -> bool {
    match row {
        Node::TableRow { children } => children@.len() == width && forall|k: int|
            0 <= k < children@.len() ==> (#[trigger] children@[k]) is TableCell,
        _ => false,
    }
}

proof fn lemma_cells_ok_shape(
    cells: Seq<Node>,
    align: Seq<AlignKind>,
    header: bool,
    db: HighlightDb,
)
    requires
        spec_render_cells_rec(cells, align, header, db) is Ok,
    ensures
        forall|k: int| 0 <= k < cells.len() ==> (#[trigger] cells[k]) is TableCell,
    decreases cells.len(),
{
    if cells.len() > 0 {
        lemma_cells_ok_shape(cells.drop_first(), align.drop_first(), header, db);
        assert forall|k: int| 0 <= k < cells.len() implies (#[trigger] cells[k]) is TableCell by {
            if k > 0 {
                assert(cells.drop_first()[k - 1] == cells[k]);
            }
        }
    }
}

proof fn lemma_rows_ok_shape(rows: Seq<Node>, align: Seq<AlignKind>, db: HighlightDb)
    requires
        spec_render_rows(rows, align, db) is Ok,
    ensures
        forall|j: int| 0 <= j < rows.len() ==> row_shape_ok(#[trigger] rows[j], align.len() as int),
    decreases rows.len(),
{
    if rows.len() > 0 {
        lemma_rows_ok_shape(rows.drop_first(), align, db);
        assert forall|j: int|
            0 <= j < rows.len() implies row_shape_ok(#[trigger] rows[j], align.len() as int) by {
            if j == 0 {
                match rows[0] {
                    Node::TableRow { children } => {
                        assert(spec_render_cells(children@, align, false, db) is Ok);
                        assert(children@.len() == align.len());
                        assert(spec_render_cells_rec(children@, align, false, db) is Ok);
                        lemma_cells_ok_shape(children@, align, false, db);
                    },
                    _ => {},
                }
            } else {
                assert(rows.drop_first()[j - 1] == rows[j]);
            }
        }
    }
}

/// A malformed table never renders: success certifies the whole shape —
/// a header row first, every child a row of cells matching the
/// alignment list — and a table without rows, or with a stray child
/// where the header row belongs, is refused as an internal error.
pub proof fn lemma_table_render_shape(rows: Seq<Node>, align: Seq<AlignKind>, db: HighlightDb)
    ensures
        spec_render_table(rows, align, db) is Ok ==> table_shape_ok(rows, align.len() as int),
        rows.len() == 0 ==> spec_render_table(rows, align, db) == Err::<Seq<char>, RenderErrorSpec>(
            RenderErrorSpec::Internal,
        ),
        rows.len() > 0 && !(rows[0] is TableRow) ==> spec_render_table(rows, align, db) == Err::<
            Seq<char>,
            RenderErrorSpec,
        >(RenderErrorSpec::Internal),
{
    if spec_render_table(rows, align, db) is Ok {
        match rows[0] {
            Node::TableRow { children } => {
                assert(spec_render_cells(children@, align, true, db) is Ok);
                assert(children@.len() == align.len());
                assert(spec_render_cells_rec(children@, align, true, db) is Ok);
                lemma_cells_ok_shape(children@, align, true, db);
                lemma_rows_ok_shape(rows.drop_first(), align, db);
                assert forall|j: int|
                    0 <= j < rows.len() implies row_shape_ok(
                    #[trigger] rows[j],
                    align.len() as int,
                ) by {
                    if j > 0 {
                        assert(rows.drop_first()[j - 1] == rows[j]);
                    }
                }
            },
            _ => {},
        }
    }
}

/// Prefixes already-rendered output to what a remaining sequence yields.
pub open spec fn prepend(a: Seq<char>, r: Result<Seq<char>, RenderErrorSpec>) -> Result<
    Seq<char>,
    RenderErrorSpec,
> {
    match r {
        Ok(h) => Ok(a + h),
        Err(e) => Err(e),
    }
}

pub(crate) fn push_fragment(builder: &mut Vec<String>, s: &str)
    ensures
        built(final(builder)@) == built(old(builder)@) + s@,
{
    broadcast use lemma_built_push;

    builder.push(s.to_owned());
}

pub(crate) fn push_owned(builder: &mut Vec<String>, s: String)
    ensures
        built(final(builder)@) == built(old(builder)@) + s@,
{
    broadcast use lemma_built_push;

    builder.push(s);
}

fn heading_tag_str(depth: u8) -> (r: &'static str)
    requires
        1 <= depth <= 6,
    ensures
        r@ == heading_tag(depth),
{
    if depth == 1 {
        "h1"
    } else if depth == 2 {
        "h2"
    } else if depth == 3 {
        "h3"
    } else if depth == 4 {
        "h4"
    } else if depth == 5 {
        "h5"
    } else {
        "h6"
    }
}

fn cell_open_str(header: bool, align: &AlignKind) -> (r: &'static str)
    ensures
        r@ == cell_open(header, *align),
{
    if header {
        match align {
            AlignKind::Unset => "<th>",
            AlignKind::Left => "<th align='left'>",
            AlignKind::Right => "<th align='right'>",
            AlignKind::Center => "<th align='center'>",
        }
    } else {
        match align {
            AlignKind::Unset => "<td>",
            AlignKind::Left => "<td align='left'>",
            AlignKind::Right => "<td align='right'>",
            AlignKind::Center => "<td align='center'>",
        }
    }
}

fn render_children_into(children: &Vec<Node>, builder: &mut Vec<String>, db: &HighlightDb) -> (r:
    Result<(), RenderError>)
    ensures
        r is Ok ==> spec_render_seq(children@, *db) is Ok && built(final(builder)@) == built(
            old(builder)@,
        ) + spec_render_seq(children@, *db)->Ok_0,
        r matches Err(e) ==> spec_render_seq(children@, *db) == Err::<
            Seq<char>,
            RenderErrorSpec,
        >(e@),
    decreases children@, 1int,
{
    let n: usize = children.len();
    let mut i: usize = 0;
    let ghost mut acc: Seq<char> = Seq::empty();
    proof {
        assert(children@.subrange(0, n as int) =~= children@);
        assert(built(old(builder)@) + acc =~= built(old(builder)@));
        assert(spec_render_seq(children@, *db) == prepend(
            acc,
            spec_render_seq(children@.subrange(0, n as int), *db),
        ));
    }
    while i < n
        invariant
            n == children@.len(),
            i <= n,
            built(builder@) == built(old(builder)@) + acc,
            spec_render_seq(children@, *db) == prepend(
                acc,
                spec_render_seq(children@.subrange(i as int, n as int), *db),
            ),
        decreases n - i,
    {
        let ghost tail = children@.subrange(i as int, n as int);
        proof {
            assert(tail[0] == children@[i as int]);
            assert(tail.drop_first() =~= children@.subrange(i as int + 1, n as int));
        }
        match mdast_into_str_builder(&children[i], builder, db) {
            Ok(_) => {
                proof {
                    let h = spec_render(children@[i as int], *db)->Ok_0;
                    assert(built(builder@) =~= built(old(builder)@) + (acc + h));
                    let rest = spec_render_seq(tail.drop_first(), *db);
                    if rest is Ok {
                        assert(acc + (h + rest->Ok_0) =~= (acc + h) + rest->Ok_0);
                    }
                    acc = acc + h;
                }
            },
            Err(e) => {
                return Err(e);
            },
        }
        i = i + 1;
    }
    proof {
        assert(children@.subrange(n as int, n as int) =~= Seq::<Node>::empty());
        assert(acc + Seq::<char>::empty() =~= acc);
    }
    Ok(())
}

fn render_wrapped(
    children: &Vec<Node>,
    before: &str,
    after: &str,
    builder: &mut Vec<String>,
    db: &HighlightDb,
) -> (r: Result<(), RenderError>)
    ensures
        r is Ok ==> spec_render_seq(children@, *db) is Ok && built(final(builder)@) == built(
            old(builder)@,
        ) + (before@ + spec_render_seq(children@, *db)->Ok_0 + after@),
        r matches Err(e) ==> spec_render_seq(children@, *db) == Err::<
            Seq<char>,
            RenderErrorSpec,
        >(e@),
    decreases children@, 2int,
{
    push_fragment(builder, before);
    match render_children_into(children, builder, db) {
        Ok(_) => {
            push_fragment(builder, after);
            proof {
                let inner = spec_render_seq(children@, *db)->Ok_0;
                assert(built(builder@) =~= built(old(builder)@) + (before@ + inner + after@));
            }
            Ok(())
        },
        Err(e) => Err(e),
    }
}

fn push_plain_code(builder: &mut Vec<String>, value: &str)
    ensures
        built(final(builder)@) == built(old(builder)@) + plain_code_block(value@),
{
    push_fragment(builder, "<pre style=\"background-color:#2b303b;\"><code>");
    push_fragment(builder, value);
    push_fragment(builder, "</code></pre>");
    proof {
        assert(built(builder@) =~= built(old(builder)@) + plain_code_block(value@));
    }
}

fn render_cells(
    cells: &Vec<Node>,
    align: &Vec<AlignKind>,
    header: bool,
    builder: &mut Vec<String>,
    db: &HighlightDb,
) -> (r: Result<(), RenderError>)
    ensures
        r is Ok ==> spec_render_cells(cells@, align@, header, *db) is Ok && built(final(builder)@)
            == built(old(builder)@) + spec_render_cells(cells@, align@, header, *db)->Ok_0,
        r matches Err(e) ==> spec_render_cells(cells@, align@, header, *db) == Err::<
            Seq<char>,
            RenderErrorSpec,
        >(e@),
    decreases cells@, 2int,
{
    let n: usize = cells.len();
    if n != align.len() {
        return Err(RenderError::InternalError);
    }
    let mut i: usize = 0;
    let ghost mut acc: Seq<char> = Seq::empty();
    proof {
        assert(cells@.subrange(0, n as int) =~= cells@);
        assert(align@.subrange(0, n as int) =~= align@);
    }
    while i < n
        invariant
            n == cells@.len(),
            n == align@.len(),
            i <= n,
            built(builder@) == built(old(builder)@) + acc,
            spec_render_cells_rec(cells@, align@, header, *db) == prepend(
                acc,
                spec_render_cells_rec(
                    cells@.subrange(i as int, n as int),
                    align@.subrange(i as int, n as int),
                    header,
                    *db,
                ),
            ),
        decreases n - i,
    {
        let ghost ctail = cells@.subrange(i as int, n as int);
        let ghost atail = align@.subrange(i as int, n as int);
        proof {
            assert(ctail[0] == cells@[i as int]);
            assert(atail[0] == align@[i as int]);
            assert(ctail.drop_first() =~= cells@.subrange(i as int + 1, n as int));
            assert(atail.drop_first() =~= align@.subrange(i as int + 1, n as int));
        }
        match &cells[i] {
            Node::TableCell { children } => {
                push_fragment(builder, cell_open_str(header, &align[i]));
                match render_children_into(children, builder, db) {
                    Ok(_) => {
                        if header {
                            push_fragment(builder, "</th>");
                        } else {
                            push_fragment(builder, "</td>");
                        }
                        proof {
                            let inner = spec_render_seq(children@, *db)->Ok_0;
                            let piece = cell_open(header, align@[i as int]) + inner + cell_close(
                                header,
                            );
                            assert(built(builder@) =~= built(old(builder)@) + (acc + piece));
                            let rest = spec_render_cells_rec(
                                ctail.drop_first(),
                                atail.drop_first(),
                                header,
                                *db,
                            );
                            if rest is Ok {
                                assert(acc + (piece + rest->Ok_0) =~= (acc + piece) + rest->Ok_0);
                            }
                            acc = acc + piece;
                        }
                    },
                    Err(e) => {
                        return Err(e);
                    },
                }
            },
            _ => {
                return Err(RenderError::InternalError);
            },
        }
        i = i + 1;
    }
    proof {
        assert(cells@.subrange(n as int, n as int) =~= Seq::<Node>::empty());
        assert(align@.subrange(n as int, n as int) =~= Seq::<AlignKind>::empty());
        assert(acc + Seq::<char>::empty() =~= acc);
    }
    Ok(())
}

fn render_table(
    children: &Vec<Node>,
    align: &Vec<AlignKind>,
    builder: &mut Vec<String>,
    db: &HighlightDb,
) -> (r: Result<(), RenderError>)
    ensures
        r is Ok ==> spec_render_table(children@, align@, *db) is Ok && built(final(builder)@)
            == built(old(builder)@) + spec_render_table(children@, align@, *db)->Ok_0,
        r matches Err(e) ==> spec_render_table(children@, align@, *db) == Err::<
            Seq<char>,
            RenderErrorSpec,
        >(e@),
    decreases children@, 3int,
{
    let n: usize = children.len();
    if n == 0 {
        return Err(RenderError::InternalError);
    }
    match &children[0] {
        Node::TableRow { children: headers } => {
            proof {
                assert(children@[0] == (Node::TableRow { children: *headers }));
            }
            push_fragment(builder, "<table><thead><tr>");
            match render_cells(headers, align, true, builder, db) {
                Ok(_) => {},
                Err(e) => {
                    return Err(e);
                },
            }
            push_fragment(builder, "</tr></thead><tbody>");
            let ghost head = spec_render_cells(headers@, align@, true, *db)->Ok_0;
            let ghost mut acc: Seq<char> = Seq::empty();
            let mut i: usize = 1;
            proof {
                assert(built(builder@) =~= built(old(builder)@) + ("<table><thead><tr>"@ + head
                    + "</tr></thead><tbody>"@ + acc));
                let r1 = spec_render_rows(children@.subrange(1, n as int), align@, *db);
                if r1 is Ok {
                    assert(Seq::<char>::empty() + r1->Ok_0 =~= r1->Ok_0);
                }
            }
            while i < n
                invariant
                    n == children@.len(),
                    1 <= i <= n,
                    children@[0] == (Node::TableRow { children: *headers }),
                    spec_render_cells(headers@, align@, true, *db) == Ok::<
                        Seq<char>,
                        RenderErrorSpec,
                    >(head),
                    built(builder@) == built(old(builder)@) + ("<table><thead><tr>"@ + head
                        + "</tr></thead><tbody>"@ + acc),
                    spec_render_rows(children@.subrange(1, n as int), align@, *db) == prepend(
                        acc,
                        spec_render_rows(children@.subrange(i as int, n as int), align@, *db),
                    ),
                decreases n - i,
            {
                let ghost rtail = children@.subrange(i as int, n as int);
                proof {
                    assert(rtail[0] == children@[i as int]);
                    assert(rtail.drop_first() =~= children@.subrange(i as int + 1, n as int));
                }
                match &children[i] {
                    Node::TableRow { children: cells } => {
                        proof {
                            assert(children@[i as int] == (Node::TableRow { children: *cells }));
                        }
                        match render_cells(cells, align, false, builder, db) {
                            Ok(_) => {
                                proof {
                                    let row = spec_render_cells(cells@, align@, false, *db)->Ok_0;
                                    assert(built(builder@) =~= built(old(builder)@) + (
                                    "<table><thead><tr>"@ + head + "</tr></thead><tbody>"@ + (acc
                                        + row)));
                                    let rest = spec_render_rows(rtail.drop_first(), align@, *db);
                                    if rest is Ok {
                                        assert(acc + (row + rest->Ok_0) =~= (acc + row)
                                            + rest->Ok_0);
                                    }
                                    acc = acc + row;
                                }
                            },
                            Err(e) => {
                                return Err(e);
                            },
                        }
                    },
                    _ => {
                        return Err(RenderError::InternalError);
                    },
                }
                i = i + 1;
            }
            push_fragment(builder, "</tbody></table>");
            proof {
                assert(children@.subrange(n as int, n as int) =~= Seq::<Node>::empty());
                assert(acc + Seq::<char>::empty() =~= acc);
                let whole = "<table><thead><tr>"@ + head + "</tr></thead><tbody>"@ + acc
                    + "</tbody></table>"@;
                assert(built(builder@) =~= built(old(builder)@) + whole);
            }
            Ok(())
        },
        _ => Err(RenderError::InternalError),
    }
}

/// Renders one node of the document tree, appending its HTML to the
/// fragment builder. On an error the document is not renderable and the
/// builder's fragments are to be discarded.
pub fn mdast_into_str_builder(node: &Node, builder: &mut Vec<String>, db: &HighlightDb) -> (r:
    Result<(), RenderError>)
    ensures
        r is Ok ==> spec_render(*node, *db) is Ok && built(final(builder)@) == built(
            old(builder)@,
        ) + spec_render(*node, *db)->Ok_0,
        r matches Err(e) ==> spec_render(*node, *db) == Err::<Seq<char>, RenderErrorSpec>(e@),
    decreases *node, 3int,
{
    match node {
        Node::Root { children } => render_children_into(children, builder, db),
        Node::Paragraph { children } => render_wrapped(children, "<p>", "</p>", builder, db),
        Node::Emphasis { children } => render_wrapped(children, "<em>", "</em>", builder, db),
        Node::Strong { children } => render_wrapped(children, "<strong>", "</strong>", builder, db),
        Node::Delete { children } => render_wrapped(children, "<del>", "</del>", builder, db),
        Node::List { children } => render_wrapped(children, "<ol>", "</ol>", builder, db),
        Node::ListItem { children } => render_wrapped(children, "<li>", "</li>", builder, db),
        Node::BlockQuote { children } => render_wrapped(
            children,
            "<blockquote>",
            "</blockquote>",
            builder,
            db,
        ),
        Node::Text { value } => {
            push_fragment(builder, value.as_str());
            Ok(())
        },
        Node::Html { value } => {
            push_fragment(builder, value.as_str());
            Ok(())
        },
        Node::InlineCode { value } => {
            push_fragment(builder, "<code>");
            push_fragment(builder, value.as_str());
            push_fragment(builder, "</code>");
            proof {
                assert(built(builder@) =~= built(old(builder)@) + ("<code>"@ + value@
                    + "</code>"@));
            }
            Ok(())
        },
        Node::Break => {
            push_fragment(builder, "<br />");
            Ok(())
        },
        Node::ThematicBreak => {
            push_fragment(builder, "<hr />");
            Ok(())
        },
        Node::Link { url, title, children } => {
            let mut before = String::from_str("<a href=\"");
            before.append(url.as_str());
            match title {
                Option::Some(t) => {
                    before.append("\" title=\"");
                    before.append(t.as_str());
                },
                Option::None => {},
            }
            before.append("\">");
            proof {
                assert(before@ =~= "<a href=\""@ + url@ + (match *title {
                    Option::Some(t) => "\" title=\""@ + t@,
                    Option::None => Seq::<char>::empty(),
                }) + "\">"@);
            }
            render_wrapped(children, before.as_str(), "</a>", builder, db)
        },
        Node::Heading { depth, children } => {
            if *depth < 1 || *depth > 6 {
                return Err(RenderError::HeaderTooDeep);
            }
            let tag = heading_tag_str(*depth);
            let name = node.label();
            let id = parameterize(name.as_str());
            let mut before = String::from_str("<");
            before.append(tag);
            before.append(" id=\"");
            before.append(id.as_str());
            before.append("\">");
            let mut after = String::from_str("</");
            after.append(tag);
            after.append(">");
            proof {
                assert(before@ =~= "<"@ + heading_tag(*depth) + " id=\""@ + slug_of(
                    label_seq(children@),
                ) + "\">"@);
                assert(after@ =~= "</"@ + heading_tag(*depth) + ">"@);
            }
            render_wrapped(children, before.as_str(), after.as_str(), builder, db)
        },
        Node::Code { value, lang } => {
            match lang {
                Option::Some(l) => {
                    match highlight_fragment(value.as_str(), l.as_str(), db) {
                        Ok(h) => {
                            push_owned(builder, h);
                            Ok(())
                        },
                        Err(_) => {
                            // The one absorbed failure: styling is lost, content is not.
                            push_plain_code(builder, value.as_str());
                            Ok(())
                        },
                    }
                },
                Option::None => {
                    push_plain_code(builder, value.as_str());
                    Ok(())
                },
            }
        },
        Node::Table { align, children } => render_table(children, align, builder, db),
        Node::TableRow { .. } => Err(RenderError::InternalError),
        Node::TableCell { .. } => Err(RenderError::InternalError),
        Node::FootnoteReference { identifier, label } => {
            match label {
                Option::Some(l) => {
                    push_fragment(builder, "<sup><a href=\"#");
                    let id = parameterize(l.as_str());
                    push_owned(builder, id);
                    push_fragment(builder, "\">");
                    push_fragment(builder, identifier.as_str());
                    push_fragment(builder, "</a></sup>");
                    proof {
                        assert(built(builder@) =~= built(old(builder)@) + ("<sup><a href=\"#"@
                            + slug_of(l@) + "\">"@ + identifier@ + "</a></sup>"@));
                    }
                },
                Option::None => {
                    push_fragment(builder, identifier.as_str());
                },
            }
            Ok(())
        },
        Node::FootnoteDefinition { identifier, label, children } => {
            let mut before = String::from_str("<div class=\"footnote-definition\" id=\"");
            before.append(identifier.as_str());
            before.append("\"><div class=\"footnote-definition-label\">");
            match label {
                Option::Some(l) => before.append(l.as_str()),
                Option::None => before.append(identifier.as_str()),
            }
            before.append("</div>");
            proof {
                assert(before@ =~= "<div class=\"footnote-definition\" id=\""@ + identifier@
                    + "\"><div class=\"footnote-definition-label\">"@ + (match *label {
                    Option::Some(l) => l@,
                    Option::None => identifier@,
                }) + "</div>"@);
            }
            render_wrapped(children, before.as_str(), "</div>", builder, db)
        },
        Node::Toml { .. } => {
            proof {
                assert(built(old(builder)@) + Seq::<char>::empty() =~= built(old(builder)@));
            }
            Ok(())
        },
        Node::Yaml { .. } => {
            proof {
                assert(built(old(builder)@) + Seq::<char>::empty() =~= built(old(builder)@));
            }
            Ok(())
        },
        Node::Image => Err(
            RenderError::NodeNotSupported { node_type: String::from_str("Images") },
        ),
        Node::ImageReference => Err(
            RenderError::NodeNotSupported { node_type: String::from_str("Images") },
        ),
        Node::LinkReference { .. } => Err(
            RenderError::NodeNotSupported { node_type: String::from_str("Reference Style Links") },
        ),
        Node::Definition => Err(
            RenderError::NodeNotSupported { node_type: String::from_str("Definitions") },
        ),
        Node::Math { .. } => Err(
            RenderError::NodeNotSupported { node_type: String::from_str("Maths") },
        ),
        Node::InlineMath { .. } => Err(
            RenderError::NodeNotSupported { node_type: String::from_str("Maths") },
        ),
        Node::Mdx => Err(RenderError::NodeNotSupported { node_type: String::from_str("JSX") }),
    }
}

/// Joins accumulated fragments into the one HTML body string.
pub fn concat_fragments(frags: &Vec<String>) -> (r: String)
    ensures
        r@ == built(frags@),
{
    let mut out = String::new();
    let mut i: usize = 0;
    proof {
        assert(frags@.subrange(0, 0) =~= Seq::<String>::empty());
        assert(built(Seq::<String>::empty()) =~= Seq::<char>::empty());
    }
    while i < frags.len()
        invariant
            i <= frags@.len(),
            out@ == built(frags@.subrange(0, i as int)),
        decreases frags@.len() - i,
    {
        out.append(frags[i].as_str());
        proof {
            assert(frags@.subrange(0, i as int + 1) =~= frags@.subrange(0, i as int).push(
                frags@[i as int],
            ));
            lemma_built_push(frags@.subrange(0, i as int), frags@[i as int]);
        }
        i = i + 1;
    }
    proof {
        assert(frags@.subrange(0, frags@.len() as int) =~= frags@);
    }
    out
}

} // verus!
