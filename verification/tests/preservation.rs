use morph::ast::{Block, ColumnAlignment, Document, Inline, TableCell};
use morph::format::Format;
use morph::preservation::{analyze, PreservationReport, PreservationStatus};

#[test]
fn reports_exact_round_trips_as_preserved() {
    let input = "# Preserved\n\nA **bold** paragraph.\n";
    let original = morph::parse(input, Format::Markdown).unwrap();
    let output = morph::emit(&original, Format::Html).unwrap();

    assert_eq!(
        analyze(&original, &output, Format::Html),
        PreservationReport {
            status: PreservationStatus::Preserved,
            changes: Vec::new(),
        }
    );
}

#[test]
fn explains_span_degradation() {
    let original = Document {
        children: vec![Block::Table {
            headers: vec![
                TableCell::new(vec![Inline::Text("A".into())]),
                TableCell::new(vec![Inline::Text("B".into())]),
            ],
            alignments: vec![ColumnAlignment::Left, ColumnAlignment::Right],
            rows: vec![vec![TableCell::with_span(
                vec![Inline::Text("Wide".into())],
                2,
                1,
            )]],
        }],
    };
    let output = morph::emit(&original, Format::Markdown).unwrap();
    let report = analyze(&original, &output, Format::Markdown);

    assert_eq!(report.status, PreservationStatus::Changed);
    assert!(report.changes.iter().any(|change| {
        change.feature == "column_spans" && change.before == 1 && change.after == 0
    }));
}

#[test]
fn explains_alignment_degradation() {
    let original = Document {
        children: vec![Block::Table {
            headers: vec![
                TableCell::new(vec![Inline::Text("A".into())]),
                TableCell::new(vec![Inline::Text("B".into())]),
            ],
            alignments: vec![ColumnAlignment::Left, ColumnAlignment::Right],
            rows: vec![vec![
                TableCell::new(vec![Inline::Text("C".into())]),
                TableCell::new(vec![Inline::Text("D".into())]),
            ]],
        }],
    };
    let output = morph::emit(&original, Format::AsciiDoc).unwrap();
    let report = analyze(&original, &output, Format::AsciiDoc);

    assert_eq!(report.status, PreservationStatus::Changed);
    assert!(report.changes.iter().any(|change| {
        change.feature == "alignment_right" && change.before == 1 && change.after == 0
    }));
}

#[test]
fn reports_outputs_that_cannot_be_reparsed() {
    let original = morph::parse("# Source\n", Format::Markdown).unwrap();
    let report = analyze(&original, "<script>", Format::Html);

    assert_eq!(report.status, PreservationStatus::Unverifiable);
    assert_eq!(report.changes[0].feature, "target_reparse");
}
