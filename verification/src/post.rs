//! A rendered post: the HTML body, the optional table of contents, and
//! the metadata a page template needs. The caller reads and parses the
//! file; everything from the parsed tree onward is assembled here.

use crate::ast::Node;
use crate::highlight::HighlightDb;
use crate::render::RenderError;
use crate::render::RenderErrorSpec;
use crate::render::built;
use crate::render::concat_fragments;
use crate::render::mdast_into_str_builder;
use crate::render::spec_render;
use crate::toc::MarkdownError;
use crate::toc::MarkdownErrorSpec;
use crate::toc::Toc;
use crate::toc::spec_build_toc;
use crate::toc::spec_headings;
use crate::toc::spec_toc_list;
use crate::toc::toc_views;
use vstd::prelude::*;

verus! {

/// What a page template receives about one post besides its body.
#[derive(Debug, PartialEq, Eq)]
pub struct PostMeta {
    pub permalink: String,
    pub title: String,
    pub published_date: String,
    pub excerpt: String,
}

/// The mathematical shape of a post's metadata.
pub struct PostMetaSpec {
    pub permalink: Seq<char>,
    pub title: Seq<char>,
    pub published_date: Seq<char>,
    pub excerpt: Seq<char>,
}

impl View for PostMeta {
    type V = PostMetaSpec;

    open spec fn view(&self) -> PostMetaSpec {
        PostMetaSpec {
            permalink: self.permalink@,
            title: self.title@,
            published_date: self.published_date@,
            excerpt: self.excerpt@,
        }
    }
}

/// One fully assembled post.
#[derive(Debug, PartialEq, Eq)]
pub struct Post {
    pub metadata: PostMeta,
    pub toc: Option<String>,
    pub content: String,
}

/// The mathematical shape of a post.
pub struct PostSpec {
    pub metadata: PostMetaSpec,
    pub toc: Option<Seq<char>>,
    pub content: Seq<char>,
}

impl View for Post {
    type V = PostSpec;

    open spec fn view(&self) -> PostSpec {
        PostSpec {
            metadata: self.metadata@,
            toc: match self.toc {
                Option::Some(t) => Option::Some(t@),
                Option::None => Option::None,
            },
            content: self.content@,
        }
    }
}

/// An error of assembling a post, file reading and template handling
/// included; the caller maps its own failures into the first two.
#[derive(Debug, PartialEq, Eq)]
#[allow(inconsistent_fields)]
pub enum ParseError {
    FileError { message: String },
    CouldntParseMustashe { message: String },
    CouldntRenderMarkdown { source: RenderError },
    CouldntParseMarkdown { source: MarkdownError },
    NotFound { file: String },
    InternalError,
}

/// The mathematical shape of a post-assembly error.
pub enum ParseErrorSpec {
    FileError(Seq<char>),
    CouldntParseMustashe(Seq<char>),
    CouldntRenderMarkdown(RenderErrorSpec),
    CouldntParseMarkdown(MarkdownErrorSpec),
    NotFound(Seq<char>),
    InternalError,
}

impl View for ParseError {
    type V = ParseErrorSpec;

    open spec fn view(&self) -> ParseErrorSpec {
        match self {
            ParseError::FileError { message } => ParseErrorSpec::FileError(message@),
            ParseError::CouldntParseMustashe { message } => ParseErrorSpec::CouldntParseMustashe(
                message@,
            ),
            ParseError::CouldntRenderMarkdown { source } => ParseErrorSpec::CouldntRenderMarkdown(
                source@,
            ),
            ParseError::CouldntParseMarkdown { source } => ParseErrorSpec::CouldntParseMarkdown(
                source@,
            ),
            ParseError::NotFound { file } => ParseErrorSpec::NotFound(file@),
            ParseError::InternalError => ParseErrorSpec::InternalError,
        }
    }
}

/// The post that a parsed document deserves: its table of contents is
/// built first, then its body is rendered; the title is the table of
/// contents root's label and the publication date opens the file's name.
pub open spec fn spec_post(
    filename: Seq<char>,
    permalink: Seq<char>,
    root: Node,
    db: HighlightDb,
) -> Result<PostSpec, ParseErrorSpec> {
    match root {
        Node::Root { children } => match spec_build_toc(spec_headings(children@)) {
            Err(e) => Err(ParseErrorSpec::CouldntParseMarkdown(e)),
            Ok(toc) => match spec_render(root, db) {
                Err(e) => Err(ParseErrorSpec::CouldntRenderMarkdown(e)),
                Ok(body) => Ok(
                    PostSpec {
                        metadata: PostMetaSpec {
                            permalink: permalink,
                            title: toc.name,
                            published_date: filename.subrange(0, 10),
                            excerpt: Seq::empty(),
                        },
                        toc: if toc.children.len() > 0 {
                            Option::Some(spec_toc_list(toc))
                        } else {
                            Option::None
                        },
                        content: body,
                    },
                ),
            },
        },
        _ => Err(ParseErrorSpec::CouldntParseMarkdown(MarkdownErrorSpec::InvalidRoot)),
    }
}

impl Post {
    /// Assembles a post from its parsed document tree. The file's name
    /// must open with its ten-character publication date.
    pub fn from_document(filename: &str, permalink: &str, root: &Node, db: &HighlightDb) -> (r:
        Result<Post, ParseError>)
        requires
            filename@.len() >= 10,
        ensures
            r matches Ok(p) ==> spec_post(filename@, permalink@, *root, *db) == Ok::<
                PostSpec,
                ParseErrorSpec,
            >(p@),
            r matches Err(e) ==> spec_post(filename@, permalink@, *root, *db) == Err::<
                PostSpec,
                ParseErrorSpec,
            >(e@),
    {
        match root {
            Node::Root { children } => {
                let toc = match Toc::from_mdast(children) {
                    Ok(t) => t,
                    Err(e) => {
                        return Err(ParseError::CouldntParseMarkdown { source: e });
                    },
                };
                let mut builder: Vec<String> = Vec::new();
                match mdast_into_str_builder(root, &mut builder, db) {
                    Ok(_) => {},
                    Err(e) => {
                        return Err(ParseError::CouldntRenderMarkdown { source: e });
                    },
                }
                proof {
                    assert(built(Seq::<String>::empty()) + spec_render(*root, *db)->Ok_0
                        =~= spec_render(*root, *db)->Ok_0);
                }
                let content = concat_fragments(&builder);
                let toc_html = toc.to_html();
                let published_date = filename.substring_char(0, 10).to_owned();
                proof {
                    crate::toc::lemma_toc_views(toc.children@);
                }
                let metadata = PostMeta {
                    title: toc.name,
                    permalink: permalink.to_owned(),
                    published_date,
                    excerpt: String::new(),
                };
                Ok(Post { metadata, content, toc: toc_html })
            },
            _ => Err(
                ParseError::CouldntParseMarkdown { source: MarkdownError::InvalidRoot },
            ),
        }
    }
}

} // verus!
