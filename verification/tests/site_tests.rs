use rhodium::ast::Node;
use rhodium::highlight::HighlightDb;
use rhodium::index::Index;
use rhodium::post::ParseError;
use rhodium::post::Post;
use rhodium::post::PostMeta;
use rhodium::toc::MarkdownError;
use syntect::highlighting::ThemeSet;
use syntect::parsing::SyntaxSet;

fn test_db() -> HighlightDb {
    let set = SyntaxSet::load_defaults_newlines();
    let theme = ThemeSet::load_defaults().themes["base16-ocean.dark"].clone();
    HighlightDb::new(set, theme)
}

fn text(value: &str) -> Node {
    Node::Text { value: value.to_owned() }
}

fn meta(date: &str, title: &str) -> PostMeta {
    PostMeta {
        permalink: format!("{title}.html"),
        title: title.to_owned(),
        published_date: date.to_owned(),
        excerpt: String::new(),
    }
}

/// The document `"# Title\n\n## Sub\n\nHello *world*."` as the external
/// parser hands it over.
fn sample_document() -> Node {
    Node::Root {
        children: vec![
            Node::Heading { depth: 1, children: vec![text("Title")] },
            Node::Heading { depth: 2, children: vec![text("Sub")] },
            Node::Paragraph {
                children: vec![
                    text("Hello "),
                    Node::Emphasis { children: vec![text("world")] },
                    text("."),
                ],
            },
        ],
    }
}

#[test]
fn end_to_end_post_from_document() {
    let db = test_db();
    let root = sample_document();
    let post = Post::from_document("2024-06-01-hello.md", "2024-06-01-hello.html", &root, &db)
        .unwrap();
    assert!(post.content.contains("<h1 id=\"title\">Title</h1>"));
    assert!(post.content.contains("<h2 id=\"sub\">Sub</h2>"));
    assert!(post.content.contains("<em>world</em>"));
    assert_eq!(
        post.content,
        "<h1 id=\"title\">Title</h1><h2 id=\"sub\">Sub</h2><p>Hello <em>world</em>.</p>"
    );
    assert_eq!(post.metadata.title, "Title");
    assert_eq!(post.metadata.permalink, "2024-06-01-hello.html");
    assert_eq!(post.metadata.published_date, "2024-06-01");
    assert_eq!(post.metadata.excerpt, "");
    assert_eq!(
        post.toc,
        Some("<ol><li><a href=\"#sub\">Sub</a></li></ol>".to_owned())
    );
}

#[test]
fn post_from_non_root_node_is_invalid_root() {
    let db = test_db();
    let node = text("not a document");
    assert_eq!(
        Post::from_document("2024-06-01-a.md", "a.html", &node, &db),
        Err(ParseError::CouldntParseMarkdown { source: MarkdownError::InvalidRoot })
    );
}

#[test]
fn post_without_headings_fails_toc_first() {
    let db = test_db();
    let root = Node::Root { children: vec![text("prose only")] };
    assert_eq!(
        Post::from_document("2024-06-01-a.md", "a.html", &root, &db),
        Err(ParseError::CouldntParseMarkdown { source: MarkdownError::NoHeadings })
    );
}

#[test]
fn post_with_unsupported_node_fails_render() {
    let db = test_db();
    let root = Node::Root {
        children: vec![
            Node::Heading { depth: 1, children: vec![text("T")] },
            Node::Image,
        ],
    };
    match Post::from_document("2024-06-01-a.md", "a.html", &root, &db) {
        Err(ParseError::CouldntRenderMarkdown { .. }) => {},
        other => panic!("expected a render error, got {other:?}"),
    }
}

#[test]
fn index_sorts_newest_first() {
    let metas = vec![
        meta("2022-03-01", "b"),
        meta("2024-01-15", "c"),
        meta("2021-12-31", "a"),
    ];
    let index = Index::from_metas(metas, 3);
    let dates: Vec<&str> = index.posts.iter().map(|p| p.published_date.as_str()).collect();
    assert_eq!(dates, vec!["2024-01-15", "2022-03-01", "2021-12-31"]);
    assert!(index.pagenation.is_none());
}

#[test]
fn index_keeps_posts_with_equal_dates() {
    let metas = vec![
        meta("2022-03-01", "x"),
        meta("2022-03-01", "y"),
    ];
    let index = Index::from_metas(metas, 2);
    assert_eq!(index.posts.len(), 2);
    let mut titles: Vec<String> = index.posts.iter().map(|p| p.title.clone()).collect();
    titles.sort();
    assert_eq!(titles, vec!["x".to_owned(), "y".to_owned()]);
}

#[test]
fn index_paginates_past_twenty_files() {
    let metas = vec![meta("2022-03-01", "only")];
    let index = Index::from_metas(metas, 21);
    let page = index.pagenation.expect("pagination expected");
    assert_eq!(page.first_page.as_deref(), Some("index.html"));
    assert_eq!(page.latest_page.as_deref(), Some("index.html"));
    assert_eq!(page.previous_page, None);
    assert_eq!(page.next_page, None);
    assert_eq!(page.page, 1);
    assert_eq!(page.total_pages, 2);
}

#[test]
fn index_of_no_posts_is_empty() {
    let index = Index::from_metas(vec![], 0);
    assert!(index.posts.is_empty());
    assert!(index.pagenation.is_none());
}

#[test]
fn post_of_title_only_document_has_no_toc() {
    let db = test_db();
    let root = Node::Root {
        children: vec![Node::Heading { depth: 1, children: vec![text("Alone")] }],
    };
    let post = Post::from_document("2024-06-01-alone.md", "alone.html", &root, &db).unwrap();
    assert_eq!(post.toc, None);
    assert_eq!(post.metadata.title, "Alone");
    assert_eq!(post.content, "<h1 id=\"alone\">Alone</h1>");
}
