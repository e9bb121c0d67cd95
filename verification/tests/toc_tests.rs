use rhodium::ast::Node;
use rhodium::toc::MarkdownError;
use rhodium::toc::Toc;

fn text(value: &str) -> Node {
    Node::Text { value: value.to_owned() }
}

fn heading(depth: u8, label: &str) -> Node {
    Node::Heading { depth, children: vec![text(label)] }
}

fn paragraph(label: &str) -> Node {
    Node::Paragraph { children: vec![text(label)] }
}

#[test]
fn toc_of_title_and_subheading() {
    let children = vec![heading(1, "Title"), paragraph("intro"), heading(2, "Sub")];
    let toc = Toc::from_mdast(&children).unwrap();
    assert_eq!(toc.depth, 1);
    assert_eq!(toc.name, "Title");
    assert_eq!(toc.children.len(), 1);
    assert_eq!(toc.children[0].depth, 2);
    assert_eq!(toc.children[0].name, "Sub");
    assert!(toc.children[0].children.is_empty());
}

#[test]
fn toc_nests_under_nearest_shallower_heading() {
    let children = vec![
        heading(1, "Title"),
        heading(2, "A"),
        heading(3, "A1"),
        heading(2, "B"),
    ];
    let toc = Toc::from_mdast(&children).unwrap();
    assert_eq!(toc.children.len(), 2);
    assert_eq!(toc.children[0].name, "A");
    assert_eq!(toc.children[0].children.len(), 1);
    assert_eq!(toc.children[0].children[0].name, "A1");
    assert_eq!(toc.children[1].name, "B");
}

#[test]
fn toc_without_headings_is_refused() {
    let children = vec![paragraph("only prose")];
    assert_eq!(Toc::from_mdast(&children), Err(MarkdownError::NoHeadings));
}

#[test]
fn toc_first_heading_must_be_title() {
    let children = vec![heading(2, "Sub"), heading(1, "Title")];
    assert_eq!(Toc::from_mdast(&children), Err(MarkdownError::FirstHeadingNotTitle));
}

#[test]
fn toc_second_title_is_refused() {
    let children = vec![heading(1, "One"), heading(2, "Sub"), heading(1, "Two")];
    assert_eq!(
        Toc::from_mdast(&children),
        Err(MarkdownError::ManyTitles { second_title: "Two".to_owned() })
    );
}

#[test]
fn toc_second_title_after_closed_subtree_is_refused() {
    let children = vec![
        heading(1, "One"),
        heading(2, "A"),
        heading(3, "A1"),
        heading(2, "B"),
        heading(1, "Two"),
    ];
    assert_eq!(
        Toc::from_mdast(&children),
        Err(MarkdownError::ManyTitles { second_title: "Two".to_owned() })
    );
}

#[test]
fn toc_label_flattens_inline_markup() {
    let children = vec![Node::Heading {
        depth: 1,
        children: vec![
            text("Hello "),
            Node::Emphasis { children: vec![text("bold")] },
            Node::InlineCode { value: " code".to_owned() },
        ],
    }];
    let toc = Toc::from_mdast(&children).unwrap();
    assert_eq!(toc.name, "Hello bold code");
}

#[test]
fn toc_html_of_leaf_is_nothing() {
    let children = vec![heading(1, "Title")];
    let toc = Toc::from_mdast(&children).unwrap();
    assert_eq!(toc.to_html(), None);
}

#[test]
fn toc_html_links_each_child_slug() {
    let children = vec![heading(1, "Title"), heading(2, "Sub")];
    let toc = Toc::from_mdast(&children).unwrap();
    assert_eq!(
        toc.to_html(),
        Some("<ol><li><a href=\"#sub\">Sub</a></li></ol>".to_owned())
    );
}

#[test]
fn toc_html_nests_grandchildren() {
    let children = vec![heading(1, "Title"), heading(2, "A B"), heading(3, "C!")];
    let toc = Toc::from_mdast(&children).unwrap();
    assert_eq!(
        toc.to_html(),
        Some(
            "<ol><li><a href=\"#a-b\">A B</a></li><ol><li><a href=\"#c\">C!</a></li></ol></ol>"
                .to_owned()
        )
    );
}

#[test]
fn toc_chain_of_deepening_headings() {
    let children = vec![heading(1, "T"), heading(2, "A"), heading(3, "B"), heading(4, "C")];
    let toc = Toc::from_mdast(&children).unwrap();
    assert_eq!(toc.children.len(), 1);
    assert_eq!(toc.children[0].children.len(), 1);
    assert_eq!(toc.children[0].children[0].children.len(), 1);
    assert_eq!(toc.children[0].children[0].children[0].name, "C");
}

#[test]
fn toc_skipping_depths_still_nests() {
    let children = vec![heading(1, "T"), heading(4, "Deep"), heading(2, "Back")];
    let toc = Toc::from_mdast(&children).unwrap();
    assert_eq!(toc.children.len(), 2);
    assert_eq!(toc.children[0].name, "Deep");
    assert_eq!(toc.children[1].name, "Back");
}
