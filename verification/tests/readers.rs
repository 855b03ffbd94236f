use morph::ast::{Block, ColumnAlignment, Document, Inline, TableCell};
use morph::error::ParseError;
use morph::format::Format;
use morph::formats::markdown::parse_inlines;

fn text(s: &str) -> Inline {
    Inline::Text(s.to_string())
}

fn code(language: Option<&str>, content: &str) -> Block {
    Block::CodeBlock {
        language: language.map(|l| l.to_string()),
        content: content.to_string(),
    }
}

fn blocks(input: &str, format: Format) -> Vec<Block> {
    morph::parse(input, format).unwrap().children
}

#[test]
fn djot_fences_give_code_or_raw_blocks() {
    assert_eq!(
        blocks("```python\nx = 1\n```\n", Format::Djot),
        vec![code(Some("python"), "x = 1")]
    );
    assert_eq!(
        blocks("``` =html\n<b>x</b>\n```\n", Format::Djot),
        vec![Block::RawBlock {
            format: Some("html".to_string()),
            content: "<b>x</b>".to_string(),
        }]
    );
}

#[test]
fn org_source_blocks_must_be_closed() {
    assert_eq!(
        blocks("#+BEGIN_SRC rust\nfn main() {}\n#+END_SRC\n", Format::Org),
        vec![code(Some("rust"), "fn main() {}")]
    );
    assert_eq!(
        morph::parse("#+begin_src rust\nx\n", Format::Org),
        Err(ParseError::InvalidInput("unterminated Org source block".to_string()))
    );
}

#[test]
fn textile_code_blocks_one_line_or_extended() {
    assert_eq!(
        blocks("bc. let x = 1;\n", Format::Textile),
        vec![code(None, "let x = 1;")]
    );
    assert_eq!(
        blocks("bc(ruby)..\nputs 1\n\np.\n", Format::Textile),
        vec![code(Some("ruby"), "puts 1")]
    );
}

#[test]
fn rst_directives_by_kind() {
    assert_eq!(
        blocks(
            ".. code-block:: python\n   :linenos:\n\n   x = 1\n\n   y = 2\n\n\nText\n",
            Format::Rst
        ),
        vec![
            code(Some("python"), "x = 1\n\ny = 2"),
            Block::Paragraph {
                content: vec![text("Text")],
            },
        ]
    );
    assert_eq!(
        blocks(".. image:: pic.png\n   :alt: A picture\n", Format::Rst),
        vec![Block::Paragraph {
            content: vec![Inline::Image {
                url: "pic.png".to_string(),
                alt: vec![text("A picture")],
                title: None,
                link: None,
            }],
        }]
    );
    assert_eq!(
        blocks(".. note::\n   Be careful.\n", Format::Rst),
        vec![Block::RawBlock {
            format: Some("rst".to_string()),
            content: ".. note::\n   Be careful.".to_string(),
        }]
    );
}

#[test]
fn lightweight_links_and_images() {
    let link = |url: &str, t: &str| Inline::Link {
        url: url.to_string(),
        text: vec![text(t)],
        title: None,
    };
    assert_eq!(
        blocks("[a](http://x)\n", Format::Djot),
        vec![Block::Paragraph {
            content: vec![link("http://x", "a")],
        }]
    );
    assert_eq!(
        blocks("[[http://x][a]]\n", Format::Org),
        vec![Block::Paragraph {
            content: vec![link("http://x", "a")],
        }]
    );
    assert_eq!(
        blocks("[[pic.PNG][alt]]\n", Format::Org),
        vec![Block::Paragraph {
            content: vec![Inline::Image {
                url: "pic.PNG".to_string(),
                alt: vec![text("alt")],
                title: None,
                link: None,
            }],
        }]
    );
    assert_eq!(
        blocks("\"a\":http://x.org.\n", Format::Textile),
        vec![Block::Paragraph {
            content: vec![link("http://x.org", "a"), text(".")],
        }]
    );
    assert_eq!(
        blocks("!pic.png(Title)!\n", Format::Textile),
        vec![Block::Paragraph {
            content: vec![Inline::Image {
                url: "pic.png".to_string(),
                alt: vec![],
                title: Some("Title".to_string()),
                link: None,
            }],
        }]
    );
}

#[test]
fn asciidoc_source_and_listing_blocks() {
    assert_eq!(
        blocks("[source,rust]\n----\nfn main() {}\n----\n", Format::AsciiDoc),
        vec![code(Some("rust"), "fn main() {}")]
    );
    assert_eq!(
        blocks("----\nplain\n----\n", Format::AsciiDoc),
        vec![code(None, "plain")]
    );
}

#[test]
fn typst_raw_blocks_carry_their_language() {
    assert_eq!(
        blocks("```rust\nlet x = 1;\n```\n", Format::Typst),
        vec![code(Some("rust"), "let x = 1;")]
    );
}

#[test]
fn markdown_fenced_and_indented_code() {
    assert_eq!(
        blocks("```js\nx\n```\n", Format::Markdown),
        vec![code(Some("js"), "x")]
    );
    assert_eq!(
        blocks("    a\n\n    b\n\n", Format::Markdown),
        vec![code(None, "a\n\nb")]
    );
}

#[test]
fn markdown_plain_text_reads_as_itself() {
    assert_eq!(parse_inlines("just words, 42."), vec![text("just words, 42.")]);
    assert_eq!(parse_inlines(""), vec![]);
}

#[test]
fn empty_input_reads_as_an_empty_document() {
    for format in [
        Format::Markdown,
        Format::AsciiDoc,
        Format::Rst,
        Format::Typst,
        Format::Latex,
        Format::Djot,
        Format::Org,
        Format::Textile,
    ] {
        assert_eq!(morph::parse("", format), Ok(Document { children: vec![] }));
        assert_eq!(morph::convert("", format, Format::Html), Ok("\n".to_string()));
    }
}

#[test]
fn a_plain_line_reads_as_one_paragraph() {
    for format in [
        Format::Markdown,
        Format::AsciiDoc,
        Format::Rst,
        Format::Typst,
        Format::Latex,
        Format::Djot,
        Format::Org,
        Format::Textile,
    ] {
        assert_eq!(
            blocks("Plain words, and 42 more.\n", format),
            vec![Block::Paragraph {
                content: vec![text("Plain words, and 42 more.")],
            }],
            "{:?}",
            format
        );
    }
}

#[test]
fn lightweight_headings_by_flavor() {
    let heading = |level: u8, t: &str| Block::Heading {
        level,
        content: vec![text(t)],
    };
    assert_eq!(blocks("## Title ##\n", Format::Djot), vec![heading(2, "Title")]);
    assert_eq!(blocks("*** Title\n", Format::Org), vec![heading(3, "Title")]);
    assert_eq!(blocks("h4. Title\n", Format::Textile), vec![heading(4, "Title")]);
}

#[test]
fn latex_inline_markup_reads_as_its_elements() {
    let para = |content: Vec<Inline>| vec![Block::Paragraph { content }];
    assert_eq!(
        blocks("\\textbf{a}\n", Format::Latex),
        para(vec![Inline::Bold(vec![text("a")])])
    );
    assert_eq!(
        blocks("\\textbf{\\textit{x}}\n", Format::Latex),
        para(vec![Inline::BoldItalic(vec![text("x")])])
    );
    assert_eq!(
        blocks("\\textit{\\textbf{x}}\n", Format::Latex),
        para(vec![Inline::BoldItalic(vec![text("x")])])
    );
    assert_eq!(
        blocks("\\sout{s}\n", Format::Latex),
        para(vec![Inline::Strikethrough(vec![text("s")])])
    );
    assert_eq!(
        blocks("\\href{https://example.com}{click}\n", Format::Latex),
        para(vec![Inline::Link {
            url: "https://example.com".to_string(),
            text: vec![text("click")],
            title: None,
        }])
    );
    assert_eq!(blocks("a~b\n", Format::Latex), para(vec![text("a b")]));
    assert_eq!(
        blocks("a\\\\b\n", Format::Latex),
        para(vec![text("a"), Inline::HardLineBreak, text("b")])
    );
    assert_eq!(
        blocks("\\verb|a_b|\n", Format::Latex),
        para(vec![Inline::InlineCode("a_b".to_string())])
    );
    assert_eq!(
        blocks("\\foo{bar}\n", Format::Latex),
        para(vec![Inline::RawInline {
            format: Some("latex".to_string()),
            content: "\\foo{bar}".to_string(),
        }])
    );
    assert_eq!(
        blocks("\\includegraphics[width=2cm]{a.png}\n", Format::Latex),
        para(vec![Inline::Image {
            url: "a.png".to_string(),
            alt: vec![],
            title: None,
            link: None,
        }])
    );
    assert_eq!(
        blocks("\\texttt{a\\_b} \\url{http://e.com}\n", Format::Latex),
        para(vec![
            Inline::InlineCode("a_b".to_string()),
            text(" "),
            Inline::Link {
                url: "http://e.com".to_string(),
                text: vec![text("http://e.com")],
                title: None,
            },
        ])
    );
}

#[test]
fn lightweight_link_text_is_the_label_read() {
    let link = |url: &str, t: &str| Inline::Link {
        url: url.to_string(),
        text: vec![text(t)],
        title: None,
    };
    assert_eq!(
        blocks("[[https://e.com][click]] x\n", Format::Org),
        vec![Block::Paragraph {
            content: vec![link("https://e.com", "click"), text(" x")],
        }]
    );
    assert_eq!(
        blocks("\"t\":http://e.com. x\n", Format::Textile),
        vec![Block::Paragraph {
            content: vec![link("http://e.com", "t"), text(". x")],
        }]
    );
    assert_eq!(
        blocks("[*b* c](u)\n", Format::Djot),
        vec![Block::Paragraph {
            content: vec![Inline::Link {
                url: "u".to_string(),
                text: vec![Inline::Bold(vec![text("b")]), text(" c")],
                title: None,
            }],
        }]
    );
}

#[test]
fn latex_cell_content_is_read() {
    let latex = "\\begin{tabular}{ll}\nA & B \\\\\n\\hline\n\\multicolumn{2}{l}{\\textbf{Wide}} \\\\\n\\end{tabular}\n";
    let document = morph::parse(latex, Format::Latex).unwrap();
    let Block::Table { rows, .. } = &document.children[0] else {
        panic!("expected table");
    };
    assert_eq!(rows[0][0].colspan, 2);
    assert_eq!(rows[0][0].content, vec![Inline::Bold(vec![text("Wide")])]);
}

#[test]
fn rst_grid_table_reads_cells_and_spans() {
    let input = "+---+---+\n| A | B |\n+===+===+\n| T | C |\n+   +---+\n|   | D |\n+---+---+\n";
    let t = |s: &str| vec![text(s)];
    assert_eq!(
        blocks(input, Format::Rst),
        vec![Block::Table {
            headers: vec![TableCell::new(t("A")), TableCell::new(t("B"))],
            alignments: vec![ColumnAlignment::Default; 2],
            rows: vec![
                vec![TableCell::with_span(t("T"), 1, 2), TableCell::new(t("C"))],
                vec![TableCell::new(t("D"))],
            ],
        }]
    );
    let wide = "+---+---+\n| A | B |\n+===+===+\n| Wide  |\n+---+---+\n";
    assert_eq!(
        blocks(wide, Format::Rst),
        vec![Block::Table {
            headers: vec![TableCell::new(t("A")), TableCell::new(t("B"))],
            alignments: vec![ColumnAlignment::Default; 2],
            rows: vec![vec![TableCell::with_span(t("Wide"), 2, 1)]],
        }]
    );
}

#[test]
fn lightweight_escaped_text_reads_back_as_itself() {
    for (format, s) in [
        (Format::Djot, "a*b_c`d[e]f\\g h"),
        (Format::Org, "a*b/c+d~e=f[g]h\\i"),
        (Format::Textile, "a*b_c@d\"e!f\\g"),
    ] {
        let document = Document {
            children: vec![Block::Paragraph { content: vec![text(s)] }],
        };
        let out = morph::emit(&document, format).unwrap();
        assert_eq!(morph::parse(&out, format).unwrap(), document, "{out}");
    }
}

#[test]
fn markdown_inline_markup_reads_as_its_elements() {
    assert_eq!(parse_inlines("**bold**"), vec![Inline::Bold(vec![text("bold")])]);
    assert_eq!(parse_inlines("*italic*"), vec![Inline::Italic(vec![text("italic")])]);
    assert_eq!(parse_inlines("***x***"), vec![Inline::BoldItalic(vec![text("x")])]);
    assert_eq!(parse_inlines("~~d~~"), vec![Inline::Strikethrough(vec![text("d")])]);
    assert_eq!(parse_inlines("CO~2~"), vec![text("CO"), Inline::Subscript(vec![text("2")])]);
    assert_eq!(parse_inlines("x^2^"), vec![text("x"), Inline::Superscript(vec![text("2")])]);
    assert_eq!(
        parse_inlines("[click](https://example.com)"),
        vec![Inline::Link { url: "https://example.com".into(), text: vec![text("click")], title: None }]
    );
    assert_eq!(
        parse_inlines("[t](u \"T\")"),
        vec![Inline::Link { url: "u".into(), text: vec![text("t")], title: Some("T".into()) }]
    );
    assert_eq!(parse_inlines("[foo]"), vec![text("[foo]")]);
    assert_eq!(parse_inlines("a  \nb"), vec![text("a"), Inline::HardLineBreak, text("b")]);
    assert_eq!(parse_inlines("a \nb"), vec![text("a"), Inline::SoftLineBreak, text("b")]);
    assert_eq!(parse_inlines("a\nb"), vec![text("a"), Inline::SoftLineBreak, text("b")]);
    assert_eq!(parse_inlines("\\*x\\*"), vec![text("*x*")]);
    assert_eq!(parse_inlines("`foo"), vec![text("`foo")]);
    assert_eq!(parse_inlines("`` a`b ``"), vec![Inline::InlineCode("a`b".into())]);
    assert_eq!(
        parse_inlines("`Provider<List<File>>`"),
        vec![Inline::InlineCode("Provider<List<File>>".into())]
    );
    assert_eq!(
        parse_inlines("[![a](i.png)](u)"),
        vec![Inline::Image { url: "i.png".into(), alt: vec![text("a")], title: None, link: Some("u".into()) }]
    );
}
