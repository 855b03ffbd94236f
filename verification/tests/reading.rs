use morph::ast::{Block, Document, Inline};
use morph::error::ConvertError;
use morph::format::Format;

const LINE_FORMATS: [Format; 8] = [
    Format::Markdown,
    Format::AsciiDoc,
    Format::Rst,
    Format::Typst,
    Format::Latex,
    Format::Djot,
    Format::Org,
    Format::Textile,
];

fn plain_paragraph(s: &str) -> Document {
    Document {
        children: vec![Block::Paragraph { content: vec![Inline::Text(s.to_string())] }],
    }
}

#[test]
fn a_plain_line_reads_as_one_paragraph_in_every_line_format() {
    for format in LINE_FORMATS {
        assert_eq!(
            morph::parse("Hello world 42", format).unwrap(),
            plain_paragraph("Hello world 42"),
            "{:?}",
            format
        );
        assert_eq!(
            morph::parse("Hello world 42\n", format).unwrap(),
            plain_paragraph("Hello world 42"),
            "{:?}",
            format
        );
    }
}

#[test]
fn converting_a_plain_line_writes_the_paragraph_read() {
    for from in LINE_FORMATS {
        for to in LINE_FORMATS {
            let written = morph::emit(&plain_paragraph("Plain text"), to).unwrap();
            assert_eq!(morph::convert("Plain text\n", from, to).unwrap(), written);
        }
    }
    assert_eq!(morph::convert("Plain text\n", Format::Markdown, Format::Rst).unwrap(), "Plain text\n");
}

#[test]
fn strict_html_refuses_text_outside_elements() {
    assert!(morph::parse("just words", Format::Html).is_err());
    assert_eq!(morph::parse("  \n ", Format::Html).unwrap(), Document { children: vec![] });
    assert_eq!(morph::parse("", Format::Html).unwrap(), Document { children: vec![] });
}

#[test]
fn strict_html_refuses_unknown_elements() {
    assert!(morph::parse("<blink>x</blink>", Format::Html).is_err());
    assert!(morph::parse("<p>a <blink>b</blink></p>", Format::Html).is_err());
    assert!(morph::parse("<h1><marquee>x</marquee></h1>", Format::Html).is_err());
    assert!(morph::parse("<p>a <strong><blink>b</blink></strong></p>", Format::Html).is_err());
    assert!(morph::parse("<p>a <strong>b</strong></p>", Format::Html).is_ok());
}

#[test]
fn strict_docbook_refuses_text_and_unknown_elements() {
    assert!(morph::parse("just words", Format::DocBook).is_err());
    assert!(morph::parse("", Format::DocBook).is_err());
    let article = |body: &str| {
        format!("<article xmlns=\"http://docbook.org/ns/docbook\">{}</article>", body)
    };
    assert!(morph::parse(&article("<para>x</para>"), Format::DocBook).is_ok());
    assert!(morph::parse(&article("<blink>x</blink>"), Format::DocBook).is_err());
    assert!(morph::parse(&article("<para><blink>x</blink></para>"), Format::DocBook).is_err());
}

#[test]
fn a_reading_error_is_the_conversion_error() {
    let read = morph::parse("just words", Format::Html).unwrap_err();
    match morph::convert("just words", Format::Html, Format::Markdown) {
        Err(ConvertError::Parse(e)) => assert_eq!(e, read),
        other => panic!("unexpected {:?}", other),
    }
}

#[test]
fn a_written_plain_paragraph_reads_back() {
    for format in LINE_FORMATS {
        let d = plain_paragraph("Round trip 7");
        let text = morph::emit(&d, format).unwrap();
        assert_eq!(text, "Round trip 7\n", "{:?}", format);
        assert_eq!(morph::parse(&text, format).unwrap(), d, "{:?}", format);
    }
}

#[test]
fn a_plain_atx_heading_reads_as_a_heading() {
    for level in 1..=6u8 {
        let line = format!("{} Title {}", "#".repeat(level as usize), level);
        let expected = Document {
            children: vec![Block::Heading {
                level,
                content: vec![Inline::Text(format!("Title {}", level))],
            }],
        };
        assert_eq!(morph::parse(&line, Format::Markdown).unwrap(), expected);
        assert_eq!(morph::parse(&format!("{}\n", line), Format::Markdown).unwrap(), expected);
        let written = morph::emit(&expected, Format::Markdown).unwrap();
        assert_eq!(written, format!("{}\n", line));
        assert_eq!(morph::parse(&written, Format::Markdown).unwrap(), expected);
    }
}

#[test]
fn a_plain_typst_heading_reads_as_a_heading() {
    for level in 1..=6u8 {
        let line = format!("{} Part {}", "=".repeat(level as usize), level);
        let expected = Document {
            children: vec![Block::Heading {
                level,
                content: vec![Inline::Text(format!("Part {}", level))],
            }],
        };
        assert_eq!(morph::parse(&line, Format::Typst).unwrap(), expected);
        let written = morph::emit(&expected, Format::Typst).unwrap();
        assert_eq!(written, format!("{}\n", line));
        assert_eq!(morph::parse(&written, Format::Typst).unwrap(), expected);
    }
}
