use morph::ast::{Block, ColumnAlignment, DescriptionItem, Document, Inline, ListItem, TableCell};
use morph::format::Format;

fn text(s: &str) -> Inline {
    Inline::Text(s.to_string())
}

fn para(s: &str) -> Block {
    Block::Paragraph {
        content: vec![text(s)],
    }
}

fn item(blocks: Vec<Block>) -> ListItem {
    ListItem { content: blocks }
}

fn adoc(children: Vec<Block>) -> String {
    morph::emit(&Document { children }, Format::AsciiDoc).unwrap()
}

#[test]
fn asciidoc_typography_and_hard_breaks() {
    let out = adoc(vec![Block::Paragraph {
        content: vec![
            text("a -- b ... c << d >> e  "),
            Inline::HardLineBreak,
            text("x"),
        ],
    }]);
    assert_eq!(out, "a \u{2013} b \u{2026} c \u{ab}{nbsp}d{nbsp}\u{bb} e +\nx\n");
}

#[test]
fn asciidoc_nested_quotes_deepen_their_delimiters() {
    let out = adoc(vec![Block::BlockQuote {
        children: vec![
            para("q"),
            Block::BlockQuote {
                children: vec![para("r")],
            },
        ],
    }]);
    assert_eq!(out, "____\n\nq\n\n________\n\nr\n\n________\n\n____\n");
}

#[test]
fn asciidoc_nested_lists_repeat_their_markers() {
    let out = adoc(vec![Block::UnorderedList {
        items: vec![
            item(vec![
                para("a"),
                Block::UnorderedList {
                    items: vec![item(vec![para("b")])],
                },
            ]),
            item(vec![para("c")]),
        ],
    }]);
    assert_eq!(out, "* a\n** b\n* c\n");
    let out = adoc(vec![Block::OrderedList {
        start: 1,
        items: vec![item(vec![para("x")]), item(vec![para("y")])],
    }]);
    assert_eq!(out, ". x\n. y\n");
}

#[test]
fn asciidoc_tables_carry_columns_and_spans() {
    let out = adoc(vec![Block::Table {
        headers: vec![TableCell::new(vec![text("h1")]), TableCell::new(vec![text("h2")])],
        alignments: vec![ColumnAlignment::Left, ColumnAlignment::Right],
        rows: vec![
            vec![TableCell::with_span(vec![text("a")], 2, 1)],
            vec![
                TableCell::new(vec![text("b")]),
                TableCell::with_span(vec![text("c")], 1, 3),
            ],
        ],
    }]);
    assert_eq!(out, "[cols=\"<,>\"]\n|===\n|h1 |h2\n\n2+|a\n|b .3+|c\n|===\n");
}

#[test]
fn asciidoc_links_by_kind() {
    let link = |url: &str, t: &str| Inline::Link {
        url: url.to_string(),
        text: vec![text(t)],
        title: None,
    };
    let out = adoc(vec![Block::Paragraph {
        content: vec![
            link("https://x.org/", "https://x.org"),
            text(" "),
            link("docs/a.html", "A, B"),
            text(" "),
            link("#sec", "S"),
        ],
    }]);
    assert_eq!(out, "https://x.org/ link:docs/a.html[\"A, B\"] <<sec,S>>\n");
}

#[test]
fn asciidoc_inline_code_by_content() {
    let code = |c: &str| Inline::InlineCode(c.to_string());
    let out = adoc(vec![Block::Paragraph {
        content: vec![
            code("a++b"),
            text(" "),
            code("{name}"),
            text(" "),
            code("x"),
            text("y "),
            code("z"),
            text(" w"),
        ],
    }]);
    assert_eq!(out, "`pass:c[a++b]` `+{name}+` ``x``y `z` w\n");
}

fn blocks_sample() -> Document {
    Document {
        children: vec![
            Block::Heading {
                level: 2,
                content: vec![text("T")],
            },
            para("p"),
            Block::UnorderedList {
                items: vec![item(vec![para("a")])],
            },
            Block::BlockQuote {
                children: vec![para("q")],
            },
            Block::HorizontalRule,
        ],
    }
}

#[test]
fn lightweight_blocks_are_written_exactly() {
    let doc = blocks_sample();
    assert_eq!(
        morph::emit(&doc, Format::Djot).unwrap(),
        "## T\n\np\n\n- a\n\n> q\n\n----\n"
    );
    assert_eq!(
        morph::emit(&doc, Format::Org).unwrap(),
        "** T\n\np\n\n- a\n\n#+begin_quote\nq\n#+end_quote\n\n-----\n"
    );
    assert_eq!(
        morph::emit(&doc, Format::Textile).unwrap(),
        "h2. T\n\np\n\n* a\n\nbq..\nq\n\np.\n\n<hr />\n"
    );
}

#[test]
fn markdown_writes_spanning_cells_on_the_full_grid() {
    let t = |s: &str| vec![morph::ast::Inline::Text(s.to_string())];
    let document = morph::ast::Document {
        children: vec![morph::ast::Block::Table {
            headers: vec![TableCell::new(t("A")), TableCell::new(t("B")), TableCell::new(t("C"))],
            alignments: vec![ColumnAlignment::Default; 3],
            rows: vec![vec![TableCell::with_span(t("Wide"), 2, 1), TableCell::new(t("D"))]],
        }],
    };
    let out = morph::emit(&document, morph::format::Format::Markdown).unwrap();
    assert_eq!(out, "| A | B | C |\n| --- | --- | --- |\n| Wide |  | D |\n");
    let tall = morph::ast::Document {
        children: vec![morph::ast::Block::Table {
            headers: vec![TableCell::new(t("A")), TableCell::new(t("B"))],
            alignments: vec![ColumnAlignment::Left, ColumnAlignment::Default],
            rows: vec![
                vec![TableCell::with_span(t("Tall"), 1, 2), TableCell::new(t("C"))],
                vec![TableCell::new(t("D"))],
            ],
        }],
    };
    let out = morph::emit(&tall, morph::format::Format::Markdown).unwrap();
    assert_eq!(out, "| A | B |\n| :--- | --- |\n| Tall | C |\n|  | D |\n");
}

#[test]
fn documents_clone_to_equal_values() {
    let document = Document {
        children: vec![
            Block::Paragraph { content: vec![Inline::Bold(vec![Inline::Text("b".to_string())])] },
            Block::UnorderedList { items: vec![ListItem { content: vec![Block::HorizontalRule] }] },
            Block::DescriptionList {
                items: vec![DescriptionItem {
                    term: vec![Inline::Text("t".to_string())],
                    definitions: vec![vec![Block::Paragraph { content: vec![] }]],
                }],
            },
            Block::Table {
                headers: vec![TableCell::with_span(vec![Inline::Text("h".to_string())], 2, 1)],
                alignments: vec![],
                rows: vec![],
            },
        ],
    };
    assert_eq!(document.clone(), document);
}

#[test]
fn asciidoc_span_prefixes_read_back() {
    let t = |s: &str| vec![Inline::Text(s.to_string())];
    let document = Document {
        children: vec![Block::Table {
            headers: vec![TableCell::new(t("A")), TableCell::new(t("B")), TableCell::new(t("C"))],
            alignments: vec![ColumnAlignment::Default; 3],
            rows: vec![
                vec![TableCell::with_span(t("W"), 2, 2), TableCell::new(t("X"))],
                vec![TableCell::with_span(t("Y"), 1, 1)],
                vec![TableCell::with_span(t("Z"), 3, 1)],
            ],
        }],
    };
    let out = morph::emit(&document, Format::AsciiDoc).unwrap();
    assert!(out.contains("2.2+|W"), "{out}");
    assert!(out.contains("3+|Z"), "{out}");
    let back = morph::parse(&out, Format::AsciiDoc).unwrap();
    let Block::Table { rows, .. } = &back.children[0] else {
        panic!("expected table");
    };
    assert_eq!((rows[0][0].colspan, rows[0][0].rowspan), (2, 2));
    assert_eq!((rows[2][0].colspan, rows[2][0].rowspan), (3, 1));
}

#[test]
fn xml_attribute_lookup_takes_the_first() {
    let el = morph::formats::strict_xml::XmlElement {
        name: "a".chars().collect(),
        attributes: vec![
            ("href".chars().collect(), "one".chars().collect()),
            ("href".chars().collect(), "two".chars().collect()),
        ],
        children: vec![],
    };
    assert_eq!(el.attr("href"), Some("one".chars().collect::<Vec<char>>()));
    assert_eq!(el.attr("title"), None);
}

#[test]
fn rst_grid_table_layout_and_reading_back() {
    let t = |s: &str| vec![Inline::Text(s.to_string())];
    let headers = vec![TableCell::new(t("A")), TableCell::new(t("B"))];
    let rows = vec![
        vec![TableCell::with_span(t("T"), 1, 2), TableCell::new(t("C"))],
        vec![TableCell::new(t("D"))],
    ];
    let document = Document {
        children: vec![Block::Table {
            headers: headers.clone(),
            alignments: vec![ColumnAlignment::Default; 2],
            rows: rows.clone(),
        }],
    };
    let out = morph::emit(&document, Format::Rst).unwrap();
    assert_eq!(
        out,
        "+-----+-----+\n| A   | B   |\n+=====+=====+\n| T   | C   |\n+     +-----+\n|     | D   |\n+-----+-----+\n"
    );
    let back = morph::parse(&out, Format::Rst).unwrap();
    assert_eq!(back, document);
    let wide = Document {
        children: vec![Block::Table {
            headers: vec![TableCell::new(t("A")), TableCell::new(t("B"))],
            alignments: vec![ColumnAlignment::Default; 2],
            rows: vec![vec![TableCell::with_span(t("Wide cell"), 2, 1)]],
        }],
    };
    let out = morph::emit(&wide, Format::Rst).unwrap();
    assert_eq!(out, "+-----+-----+\n| A   | B   |\n+=====+=====+\n| Wide cell |\n+-----+-----+\n");
}
