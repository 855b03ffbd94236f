use morph::ast::{Block, Document, Inline, ListItem, TableCell};
use morph::equality::documents_equal;
use morph::format::Format;
use morph::formats::strict_xml::{decode_entities, escape_xml, escape_xml_attr};
use morph::preservation::{
    compare, feature_name, inventory, PreservationStatus, BLOCK_NODES, BOLD, FEATURE_COUNT,
    HEADINGS, INLINE_NODES, LIST_ITEMS, MAXIMUM_BLOCK_DEPTH, PARAGRAPHS, TEXT_CHARACTERS,
    UNORDERED_LISTS,
};

const ALL: [Format; 10] = [
    Format::Markdown,
    Format::AsciiDoc,
    Format::Rst,
    Format::Typst,
    Format::Latex,
    Format::Djot,
    Format::Org,
    Format::Textile,
    Format::Html,
    Format::DocBook,
];

fn text(s: &str) -> Inline {
    Inline::Text(s.to_string())
}

fn sample() -> Document {
    Document {
        children: vec![
            Block::Heading {
                level: 1,
                content: vec![text("Title")],
            },
            Block::Paragraph {
                content: vec![text("A "), Inline::Bold(vec![text("bold")]), text(" word.")],
            },
            Block::UnorderedList {
                items: vec![
                    ListItem {
                        content: vec![Block::Paragraph { content: vec![text("one")] }],
                    },
                    ListItem {
                        content: vec![Block::BlockQuote {
                            children: vec![Block::Paragraph { content: vec![text("deep")] }],
                        }],
                    },
                ],
            },
        ],
    }
}

#[test]
fn every_identifier_names_its_format() {
    for format in ALL {
        assert_eq!(Format::from_name(format.id()), Some(format));
        assert_eq!(Format::from_extension(&format.id().to_uppercase()), Some(format));
    }
}

#[test]
fn every_writer_ends_with_one_newline() {
    let doc = sample();
    for format in ALL {
        let out = morph::emit(&doc, format).unwrap();
        assert!(out.ends_with('\n'), "{format:?}");
        assert!(!out.ends_with("\n\n"), "{format:?}");
    }
    for format in ALL {
        let out = morph::emit(&Document { children: vec![] }, format).unwrap();
        assert!(out.ends_with('\n') && !out.ends_with("\n\n"), "{format:?}");
    }
}

#[test]
fn conversion_fails_only_when_reading_fails() {
    let error = morph::convert("<p>unclosed", Format::Html, Format::Markdown).unwrap_err();
    assert!(error.message().starts_with("Parse error: "));
    assert_eq!(
        morph::convert("# Hi\n", Format::Markdown, Format::Html).unwrap(),
        morph::emit(&morph::parse("# Hi\n", Format::Markdown).unwrap(), Format::Html).unwrap()
    );
}

#[test]
fn numeric_entities_are_decoded() {
    let doc = morph::parse("<p>&#65;&#x42;&#x1F600;</p>", Format::Html).unwrap();
    assert_eq!(
        doc,
        Document {
            children: vec![Block::Paragraph { content: vec![text("AB\u{1F600}")] }]
        }
    );
    assert!(morph::parse("<p>&#xD800;</p>", Format::Html).is_err());
}

#[test]
fn new_cells_span_nothing() {
    assert!(!TableCell::new(vec![text("x")]).has_span());
    assert!(TableCell::with_span(vec![], 2, 1).has_span());
    assert!(TableCell::with_span(vec![], 1, 3).has_span());
}

#[test]
fn a_document_equals_itself_and_is_preserved() {
    let a = sample();
    let b = sample();
    assert!(documents_equal(&a, &b));
    let report = compare(&a, &b);
    assert_eq!(report.status, PreservationStatus::Preserved);
    assert!(report.changes.is_empty());
}

#[test]
fn inventories_count_every_feature() {
    let counts = inventory(&sample()).counts;
    assert_eq!(counts.len(), FEATURE_COUNT);
    assert_eq!(counts[HEADINGS], 1);
    assert_eq!(counts[PARAGRAPHS], 3);
    assert_eq!(counts[UNORDERED_LISTS], 1);
    assert_eq!(counts[LIST_ITEMS], 2);
    assert_eq!(counts[BLOCK_NODES], 6);
    assert_eq!(counts[BOLD], 1);
    assert_eq!(counts[INLINE_NODES], 7);
    assert_eq!(counts[TEXT_CHARACTERS], 5 + 2 + 4 + 6 + 3 + 4);
    assert_eq!(counts[MAXIMUM_BLOCK_DEPTH], 3);
}

#[test]
fn features_are_named_in_byte_order() {
    assert_eq!(feature_name(0), "alignment_center");
    assert_eq!(feature_name(MAXIMUM_BLOCK_DEPTH), "maximum_block_depth");
    assert_eq!(feature_name(FEATURE_COUNT - 1), "unordered_lists");
    for k in 1..FEATURE_COUNT {
        assert!(feature_name(k - 1) < feature_name(k));
    }
}

#[test]
fn changes_are_listed_by_feature_name() {
    let original = sample();
    let reparsed = Document {
        children: vec![Block::Paragraph {
            content: vec![text("Title")],
        }],
    };
    let report = compare(&original, &reparsed);
    assert_eq!(report.status, PreservationStatus::Changed);
    let names: Vec<&str> = report.changes.iter().map(|c| c.feature).collect();
    let mut sorted = names.clone();
    sorted.sort();
    assert_eq!(names, sorted);
    let headings = report.changes.iter().find(|c| c.feature == "headings").unwrap();
    assert_eq!((headings.before, headings.after), (1, 0));
    let depth = report
        .changes
        .iter()
        .find(|c| c.feature == "maximum_block_depth")
        .unwrap();
    assert_eq!((depth.before, depth.after), (3, 1));
}

#[test]
fn same_counts_but_different_text_is_a_structural_change() {
    let a = Document {
        children: vec![Block::Paragraph { content: vec![text("ab")] }],
    };
    let b = Document {
        children: vec![Block::Paragraph { content: vec![text("cd")] }],
    };
    let report = compare(&a, &b);
    assert_eq!(report.status, PreservationStatus::Changed);
    assert_eq!(report.changes.len(), 1);
    assert_eq!(report.changes[0].feature, "semantic_structure");
    assert_eq!((report.changes[0].before, report.changes[0].after), (1, 0));
}

#[test]
fn decoding_undoes_xml_escaping() {
    for text in ["", "plain", "a < b && c > d", "\"quoted\" & 'single'", "&amp; already", "x;y&"] {
        let s = text.to_string();
        let chars: Vec<char> = text.chars().collect();
        assert_eq!(decode_entities(&escape_xml(&s)), Ok(chars.clone()));
        assert_eq!(decode_entities(&escape_xml_attr(&s)), Ok(chars));
    }
}

#[test]
fn entity_errors_carry_their_messages() {
    let decode = |s: &str| decode_entities(&s.chars().collect());
    let text = |s: &str| s.chars().collect::<Vec<char>>();
    assert_eq!(decode("&lt;&#65;&#x42;&#x+43;&gt;"), Ok(text("<ABC>")));
    assert_eq!(decode("a &amp b"), Err(text("unterminated entity")));
    assert_eq!(decode("tail &amp"), Err(text("unterminated entity")));
    assert_eq!(decode("&bogus;"), Err(text("unsupported entity '&bogus;'")));
    assert_eq!(decode("&#xZZ;"), Err(text("invalid entity '&#xZZ;'")));
    assert_eq!(decode("&#55296;"), Err(text("invalid entity '&#55296;'")));
    assert_eq!(decode("&#;"), Err(text("invalid entity '&#;'")));
}

#[test]
fn html_text_survives_a_round_trip() {
    let doc = Document {
        children: vec![Block::Paragraph {
            content: vec![text("1 < 2 & \"3\" > 'four'")],
        }],
    };
    let html = morph::emit(&doc, Format::Html).unwrap();
    assert_eq!(html, "<p>1 &lt; 2 &amp; \"3\" &gt; 'four'</p>\n");
    assert_eq!(morph::parse(&html, Format::Html).unwrap(), doc);
}

#[test]
fn lightweight_inlines_are_written_exactly() {
    let doc = Document {
        children: vec![Block::Paragraph {
            content: vec![
                Inline::Bold(vec![text("b*")]),
                text(" "),
                Inline::Italic(vec![text("i")]),
                text(" "),
                Inline::InlineCode("c".to_string()),
            ],
        }],
    };
    assert_eq!(morph::emit(&doc, Format::Djot).unwrap(), "*b\\** _i_ `c`\n");
    assert_eq!(morph::emit(&doc, Format::Org).unwrap(), "*b\\** /i/ ~c~\n");
    assert_eq!(morph::emit(&doc, Format::Textile).unwrap(), "*b\\** _i_ @c@\n");
}

#[test]
fn document_equality_is_symmetric_and_transitive() {
    let a = sample();
    let b = sample();
    let c = sample();
    let other = Document {
        children: vec![Block::HorizontalRule],
    };
    assert!(documents_equal(&a, &b) && documents_equal(&b, &a));
    assert!(documents_equal(&b, &c) && documents_equal(&a, &c));
    assert_eq!(documents_equal(&a, &other), documents_equal(&other, &a));
    assert!(!documents_equal(&other, &a));
}

#[test]
fn comparing_either_way_swaps_the_counts() {
    let original = sample();
    let reparsed = Document {
        children: vec![Block::Paragraph {
            content: vec![text("Title")],
        }],
    };
    let forth = compare(&original, &reparsed);
    let back = compare(&reparsed, &original);
    assert_eq!(forth.status, back.status);
    assert_eq!(forth.changes.len(), back.changes.len());
    for (f, b) in forth.changes.iter().zip(back.changes.iter()) {
        assert_eq!(f.feature, b.feature);
        assert_eq!((f.before, f.after), (b.after, b.before));
    }
}

#[test]
fn escaped_text_holds_no_tag() {
    for text in ["a<b", "<<>>", "plain", "x & <y>"] {
        let s = text.to_string();
        assert!(!escape_xml(&s).contains(&'<'));
        assert!(!escape_xml_attr(&s).contains(&'<'));
    }
}
