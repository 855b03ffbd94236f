use morph::cli::{
    help_text, input_format, io_error_message, output_format, parse_args, version_text,
    CliCommand, Invocation,
};
use morph::format::Format;

fn args(list: &[&str]) -> Vec<String> {
    list.iter().map(|a| a.to_string()).collect()
}

fn invocation(list: &[&str]) -> Invocation {
    match parse_args(&args(list)) {
        Ok(CliCommand::Convert(invocation)) => invocation,
        other => panic!("expected a conversion, got {other:?}"),
    }
}

fn refusal(list: &[&str]) -> String {
    match parse_args(&args(list)) {
        Err(message) => message,
        other => panic!("expected a refusal, got {other:?}"),
    }
}

#[test]
fn help_and_version_end_the_reading() {
    assert!(matches!(parse_args(&args(&["--help"])), Ok(CliCommand::Help)));
    assert!(matches!(parse_args(&args(&["-h", "--bogus"])), Ok(CliCommand::Help)));
    assert!(matches!(parse_args(&args(&["-V"])), Ok(CliCommand::Version)));
    assert!(matches!(
        parse_args(&args(&["--version", "a", "b", "c"])),
        Ok(CliCommand::Version)
    ));
}

#[test]
fn formats_and_paths_are_gathered() {
    let inv = invocation(&["--from", "md", "--to", "html"]);
    assert_eq!(inv.from, Some(Format::Markdown));
    assert_eq!(inv.to, Some(Format::Html));
    assert!(inv.positional.is_empty());

    let inv = invocation(&["notes.md", "-t", "Typst", "out.txt"]);
    assert_eq!(inv.from, None);
    assert_eq!(inv.to, Some(Format::Typst));
    assert_eq!(inv.positional, vec!["notes.md".to_string(), "out.txt".to_string()]);

    let inv = invocation(&["-"]);
    assert_eq!(inv.positional, vec!["-".to_string()]);

    let inv = invocation(&["-f", "MARKDOWN", "-f", "LaTeX"]);
    assert_eq!(inv.from, Some(Format::Latex));
}

#[test]
fn bad_command_lines_are_refused() {
    assert_eq!(refusal(&["--from"]), "--from requires a value");
    assert_eq!(refusal(&["a.md", "-t"]), "--to requires a value");
    assert_eq!(refusal(&["--to", "nope"]), "Unknown format: nope");
    assert_eq!(
        refusal(&["--bogus", "--help"]),
        "Unknown option: --bogus. See --help for usage."
    );
    assert_eq!(
        refusal(&["a", "b", "c"]),
        "Unexpected argument: c. Expected at most <input> and <output>."
    );
}

#[test]
fn formats_come_from_options_before_extensions() {
    assert_eq!(input_format(None, Some("md")), Ok(Format::Markdown));
    assert_eq!(input_format(None, Some("TEX")), Ok(Format::Latex));
    assert_eq!(input_format(Some(Format::Html), Some("md")), Ok(Format::Html));
    assert_eq!(
        input_format(None, None),
        Err("Cannot determine input format. Use --from to specify.".to_string())
    );
    assert_eq!(
        input_format(None, Some("txt")),
        Err("Cannot determine input format. Use --from to specify.".to_string())
    );
    assert_eq!(output_format(None, Some("adoc")), Ok(Format::AsciiDoc));
    assert_eq!(output_format(Some(Format::Rst), None), Ok(Format::Rst));
    assert_eq!(
        output_format(None, Some("doc")),
        Err("Cannot determine output format. Use --to to specify.".to_string())
    );
}

#[test]
fn printed_texts() {
    assert_eq!(version_text("1.2.3"), "morph 1.2.3");
    let help = help_text("0.1.0");
    assert!(help.starts_with("morph 0.1.0 - universal markup converter\n\nUsage:\n"));
    assert!(help.contains("\n  dbk, docbook      strict DocBook\n"));
    assert!(help.ends_with("  -V, --version     Show version"));
    assert_eq!(
        io_error_message(Some("a.md"), "denied"),
        "I/O error on 'a.md': denied"
    );
    assert_eq!(io_error_message(None, "closed"), "I/O error: closed");
}
