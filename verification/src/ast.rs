//! The Markdown document tree that the renderer and the table-of-contents
//! builder consume. The external parser's output is converted into this
//! self-contained form, so every traversal below is over plain values.

use vstd::prelude::*;

verus! {

/// Column alignment of a table, one entry per column.
#[derive(Debug, Clone, Copy, PartialEq, Eq, Structural)]
pub enum AlignKind {
    Unset,
    Left,
    Right,
    Center,
}

/// One node of a parsed Markdown document. Container kinds own their
/// children in document order.
#[derive(Debug, PartialEq, Eq)]
pub enum Node {
    Root { children: Vec<Node> },
    Paragraph { children: Vec<Node> },
    Heading { depth: u8, children: Vec<Node> },
    Text { value: String },
    Html { value: String },
    InlineCode { value: String },
    Emphasis { children: Vec<Node> },
    Strong { children: Vec<Node> },
    Delete { children: Vec<Node> },
    Break,
    Link { url: String, title: Option<String>, children: Vec<Node> },
    List { children: Vec<Node> },
    ListItem { children: Vec<Node> },
    BlockQuote { children: Vec<Node> },
    Table { align: Vec<AlignKind>, children: Vec<Node> },
    TableRow { children: Vec<Node> },
    TableCell { children: Vec<Node> },
    Code { value: String, lang: Option<String> },
    ThematicBreak,
    FootnoteReference { identifier: String, label: Option<String> },
    FootnoteDefinition { identifier: String, label: Option<String>, children: Vec<Node> },
    Toml { value: String },
    Yaml { value: String },
    Image,
    ImageReference,
    LinkReference { children: Vec<Node> },
    Definition,
    Math { value: String },
    InlineMath { value: String },
    Mdx,
}

/// The flattened plain-text label of a node: the text of its descendant
/// literal nodes in order, with all markup ignored. Heading labels name
/// table-of-contents entries and, slugified, the headings' anchor ids.
pub open spec fn label_of(node: Node) -> Seq<char>
    decreases node,
{
    match node {
        Node::Root { children } => label_seq(children@),
        Node::Paragraph { children } => label_seq(children@),
        Node::Heading { children, .. } => label_seq(children@),
        Node::Emphasis { children } => label_seq(children@),
        Node::Strong { children } => label_seq(children@),
        Node::Delete { children } => label_seq(children@),
        Node::Link { children, .. } => label_seq(children@),
        Node::List { children } => label_seq(children@),
        Node::ListItem { children } => label_seq(children@),
        Node::BlockQuote { children } => label_seq(children@),
        Node::Table { children, .. } => label_seq(children@),
        Node::TableRow { children } => label_seq(children@),
        Node::TableCell { children } => label_seq(children@),
        Node::FootnoteDefinition { children, .. } => label_seq(children@),
        Node::LinkReference { children } => label_seq(children@),
        Node::Text { value } => value@,
        Node::Html { value } => value@,
        Node::InlineCode { value } => value@,
        Node::Code { value, .. } => value@,
        Node::Toml { value } => value@,
        Node::Yaml { value } => value@,
        Node::Math { value } => value@,
        Node::InlineMath { value } => value@,
        Node::Break => Seq::empty(),
        Node::ThematicBreak => Seq::empty(),
        Node::FootnoteReference { .. } => Seq::empty(),
        Node::Image => Seq::empty(),
        Node::ImageReference => Seq::empty(),
        Node::Definition => Seq::empty(),
        Node::Mdx => Seq::empty(),
    }
}

/// The concatenated labels of a sequence of sibling nodes.
pub open spec fn label_seq(s: Seq<Node>) -> Seq<char>
    decreases s,
{
    if s.len() == 0 {
        Seq::empty()
    } else {
        label_of(s[0]) + label_seq(s.drop_first())
    }
}

impl Node {
    /// The flattened plain-text label of this node.
    pub fn label(&self) -> (r: String)
        ensures
            r@ == label_of(*self),
        decreases *self,
    {
        match self {
            Node::Root { children } => label_children(children),
            Node::Paragraph { children } => label_children(children),
            Node::Heading { children, .. } => label_children(children),
            Node::Emphasis { children } => label_children(children),
            Node::Strong { children } => label_children(children),
            Node::Delete { children } => label_children(children),
            Node::Link { children, .. } => label_children(children),
            Node::List { children } => label_children(children),
            Node::ListItem { children } => label_children(children),
            Node::BlockQuote { children } => label_children(children),
            Node::Table { children, .. } => label_children(children),
            Node::TableRow { children } => label_children(children),
            Node::TableCell { children } => label_children(children),
            Node::FootnoteDefinition { children, .. } => label_children(children),
            Node::LinkReference { children } => label_children(children),
            Node::Text { value } => value.clone(),
            Node::Html { value } => value.clone(),
            Node::InlineCode { value } => value.clone(),
            Node::Code { value, .. } => value.clone(),
            Node::Toml { value } => value.clone(),
            Node::Yaml { value } => value.clone(),
            Node::Math { value } => value.clone(),
            Node::InlineMath { value } => value.clone(),
            Node::Break => String::new(),
            Node::ThematicBreak => String::new(),
            Node::FootnoteReference { .. } => String::new(),
            Node::Image => String::new(),
            Node::ImageReference => String::new(),
            Node::Definition => String::new(),
            Node::Mdx => String::new(),
        }
    }
}

fn label_children(children: &Vec<Node>) -> (r: String)
    ensures
        r@ == label_seq(children@),
    decreases children@,
{
    let mut out = String::new();
    let mut i: usize = 0;
    proof {
        assert(children@.subrange(0, children@.len() as int) =~= children@);
        assert(out@ + label_seq(children@) =~= label_seq(children@));
    }
    while i < children.len()
        invariant
            i <= children@.len(),
            out@ + label_seq(children@.subrange(i as int, children@.len() as int)) == label_seq(
                children@,
            ),
        decreases children@.len() - i,
    {
        let ghost tail = children@.subrange(i as int, children@.len() as int);
        proof {
            assert(tail.drop_first() =~= children@.subrange(
                i as int + 1,
                children@.len() as int,
            ));
        }
        let piece = children[i].label();
        out.append(piece.as_str());
        i = i + 1;
    }
    proof {
        assert(children@.subrange(children@.len() as int, children@.len() as int)
            =~= Seq::<Node>::empty());
        assert(out@ + Seq::<char>::empty() =~= out@);
    }
    out
}

} // verus!
