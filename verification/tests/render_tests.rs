use rhodium::ast::AlignKind;
use rhodium::ast::Node;
use rhodium::highlight::HighlightDb;
use rhodium::highlight::highlight_fragment;
use rhodium::render::RenderError;
use rhodium::render::concat_fragments;
use rhodium::render::mdast_into_str_builder;
use syntect::highlighting::ThemeSet;
use syntect::parsing::SyntaxSet;

fn test_db() -> HighlightDb {
    let set = SyntaxSet::load_defaults_newlines();
    let theme = ThemeSet::load_defaults().themes["base16-ocean.dark"].clone();
    HighlightDb::new(set, theme)
}

fn text(value: &str) -> Node {
    Node::Text { value: value.to_owned() }
}

fn render(node: &Node, db: &HighlightDb) -> Result<String, RenderError> {
    let mut builder = Vec::new();
    mdast_into_str_builder(node, &mut builder, db)?;
    Ok(concat_fragments(&builder))
}

#[test]
fn renders_inline_markup() {
    let db = test_db();
    let node = Node::Paragraph {
        children: vec![
            text("a "),
            Node::Emphasis { children: vec![text("b")] },
            Node::Strong { children: vec![text("c")] },
            Node::Delete { children: vec![text("d")] },
            Node::InlineCode { value: "e".to_owned() },
            Node::Break,
        ],
    };
    assert_eq!(
        render(&node, &db).unwrap(),
        "<p>a <em>b</em><strong>c</strong><del>d</del><code>e</code><br /></p>"
    );
}

#[test]
fn renders_links_with_and_without_title() {
    let db = test_db();
    let with_title = Node::Link {
        url: "https://example.org".to_owned(),
        title: Some("An example".to_owned()),
        children: vec![text("go")],
    };
    assert_eq!(
        render(&with_title, &db).unwrap(),
        "<a href=\"https://example.org\" title=\"An example\">go</a>"
    );
    let without = Node::Link {
        url: "x".to_owned(),
        title: None,
        children: vec![text("go")],
    };
    assert_eq!(render(&without, &db).unwrap(), "<a href=\"x\">go</a>");
}

#[test]
fn raw_html_passes_through() {
    let db = test_db();
    let node = Node::Html { value: "<video controls></video>".to_owned() };
    assert_eq!(render(&node, &db).unwrap(), "<video controls></video>");
}

#[test]
fn heading_gets_slug_id() {
    let db = test_db();
    let node = Node::Heading { depth: 3, children: vec![text("My Heading!")] };
    assert_eq!(render(&node, &db).unwrap(), "<h3 id=\"my-heading\">My Heading!</h3>");
}

#[test]
fn heading_depth_out_of_range_fails() {
    let db = test_db();
    let deep = Node::Heading { depth: 7, children: vec![text("x")] };
    assert_eq!(render(&deep, &db), Err(RenderError::HeaderTooDeep));
    let zero = Node::Heading { depth: 0, children: vec![text("x")] };
    assert_eq!(render(&zero, &db), Err(RenderError::HeaderTooDeep));
}

#[test]
fn fenced_code_with_known_language_is_highlighted() {
    let db = test_db();
    let node = Node::Code { value: "let x = 1;".to_owned(), lang: Some("rust".to_owned()) };
    let html = render(&node, &db).unwrap();
    assert!(html.contains("style="));
    assert!(html.starts_with("<pre style="));
}

#[test]
fn fenced_code_with_unknown_language_falls_back() {
    let db = test_db();
    let node = Node::Code { value: "plain text".to_owned(), lang: Some("nosuchlang".to_owned()) };
    assert_eq!(
        render(&node, &db).unwrap(),
        "<pre style=\"background-color:#2b303b;\"><code>plain text</code></pre>"
    );
}

#[test]
fn fenced_code_without_language_is_plain() {
    let db = test_db();
    let node = Node::Code { value: "plain".to_owned(), lang: None };
    assert_eq!(
        render(&node, &db).unwrap(),
        "<pre style=\"background-color:#2b303b;\"><code>plain</code></pre>"
    );
}

#[test]
fn highlight_fragment_unknown_language_errors() {
    let db = test_db();
    assert_eq!(
        highlight_fragment("x", "nosuchlang", &db),
        Err(RenderError::UnknownLang { lang: "nosuchlang".to_owned() })
    );
}

#[test]
fn highlight_fragment_lookup_is_case_insensitive() {
    let db = test_db();
    let lower = highlight_fragment("let x = 1;", "rust", &db).unwrap();
    let upper = highlight_fragment("let x = 1;", "Rust", &db).unwrap();
    assert_eq!(lower, upper);
    assert!(lower.contains("style="));
}

#[test]
fn table_renders_headers_and_alignment() {
    let db = test_db();
    let cell = |s: &str| Node::TableCell { children: vec![text(s)] };
    let node = Node::Table {
        align: vec![AlignKind::Left, AlignKind::Unset],
        children: vec![
            Node::TableRow { children: vec![cell("h1"), cell("h2")] },
            Node::TableRow { children: vec![cell("a"), cell("b")] },
        ],
    };
    assert_eq!(
        render(&node, &db).unwrap(),
        "<table><thead><tr><th align='left'>h1</th><th>h2</th></tr></thead><tbody>\
         <td align='left'>a</td><td>b</td></tbody></table>"
    );
}

#[test]
fn table_with_non_row_child_is_internal_error() {
    let db = test_db();
    let node = Node::Table {
        align: vec![AlignKind::Unset],
        children: vec![text("not a row")],
    };
    assert_eq!(render(&node, &db), Err(RenderError::InternalError));
}

#[test]
fn table_with_width_mismatch_is_internal_error() {
    let db = test_db();
    let cell = |s: &str| Node::TableCell { children: vec![text(s)] };
    let node = Node::Table {
        align: vec![AlignKind::Unset, AlignKind::Unset],
        children: vec![Node::TableRow { children: vec![cell("only one")] }],
    };
    assert_eq!(render(&node, &db), Err(RenderError::InternalError));
}

#[test]
fn table_cell_outside_row_is_internal_error() {
    let db = test_db();
    let node = Node::Table {
        align: vec![AlignKind::Unset],
        children: vec![Node::TableRow { children: vec![text("bare")] }],
    };
    assert_eq!(render(&node, &db), Err(RenderError::InternalError));
    let stray = Node::TableCell { children: vec![text("stray")] };
    assert_eq!(render(&stray, &db), Err(RenderError::InternalError));
}

#[test]
fn unsupported_kinds_fail_by_name() {
    let db = test_db();
    let unsupported = |n: Node, kind: &str| {
        assert_eq!(
            render(&n, &db),
            Err(RenderError::NodeNotSupported { node_type: kind.to_owned() })
        );
    };
    unsupported(Node::Image, "Images");
    unsupported(Node::ImageReference, "Images");
    unsupported(Node::LinkReference { children: vec![] }, "Reference Style Links");
    unsupported(Node::Definition, "Definitions");
    unsupported(Node::Math { value: "x".to_owned() }, "Maths");
    unsupported(Node::InlineMath { value: "x".to_owned() }, "Maths");
    unsupported(Node::Mdx, "JSX");
}

#[test]
fn frontmatter_renders_to_nothing() {
    let db = test_db();
    let node = Node::Root {
        children: vec![
            Node::Toml { value: "a = 1".to_owned() },
            Node::Yaml { value: "a: 1".to_owned() },
            text("body"),
        ],
    };
    assert_eq!(render(&node, &db).unwrap(), "body");
}

#[test]
fn footnotes_render_reference_and_definition() {
    let db = test_db();
    let reference = Node::FootnoteReference {
        identifier: "1".to_owned(),
        label: Some("Note One".to_owned()),
    };
    assert_eq!(
        render(&reference, &db).unwrap(),
        "<sup><a href=\"#note-one\">1</a></sup>"
    );
    let bare = Node::FootnoteReference { identifier: "1".to_owned(), label: None };
    assert_eq!(render(&bare, &db).unwrap(), "1");
    let definition = Node::FootnoteDefinition {
        identifier: "1".to_owned(),
        label: Some("Note One".to_owned()),
        children: vec![text("details")],
    };
    assert_eq!(
        render(&definition, &db).unwrap(),
        "<div class=\"footnote-definition\" id=\"1\">\
         <div class=\"footnote-definition-label\">Note One</div>details</div>"
    );
}

#[test]
fn lists_quotes_and_breaks() {
    let db = test_db();
    let node = Node::Root {
        children: vec![
            Node::List {
                children: vec![
                    Node::ListItem { children: vec![text("one")] },
                    Node::ListItem { children: vec![text("two")] },
                ],
            },
            Node::ThematicBreak,
            Node::BlockQuote { children: vec![text("quoted")] },
        ],
    };
    assert_eq!(
        render(&node, &db).unwrap(),
        "<ol><li>one</li><li>two</li></ol><hr /><blockquote>quoted</blockquote>"
    );
}

#[test]
fn error_aborts_whole_render() {
    let db = test_db();
    let node = Node::Root { children: vec![text("before"), Node::Image, text("after")] };
    assert_eq!(
        render(&node, &db),
        Err(RenderError::NodeNotSupported { node_type: "Images".to_owned() })
    );
}

#[test]
fn heading_depth_six_renders() {
    let db = test_db();
    let node = Node::Heading { depth: 6, children: vec![text("Tiny")] };
    assert_eq!(render(&node, &db).unwrap(), "<h6 id=\"tiny\">Tiny</h6>");
}
