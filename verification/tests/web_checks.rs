use morph::format::Format;
use morph::web::{
    check_content_length, check_content_type, convert, invalid_json, supported_formats,
    validate_request, ConvertRequest,
};

fn request(input: &str, from: &str, to: &[&str]) -> ConvertRequest {
    ConvertRequest {
        input: input.to_string(),
        from: from.to_string(),
        to: to.iter().map(|format| (*format).to_string()).collect(),
    }
}

fn refusal(input: &str, from: &str, to: &[&str]) -> (u16, &'static str, String) {
    let error = validate_request(request(input, from, to)).unwrap_err();
    (error.status, error.code, error.message)
}

#[test]
fn refusals_carry_their_messages() {
    assert_eq!(
        refusal(" \t\u{3000}\n", "md", &["html"]),
        (400, "empty_input", "Enter some markup to convert.".to_string())
    );
    assert_eq!(
        refusal(&"é".repeat(131_073), "md", &["html"]),
        (413, "input_too_large", "Input is limited to 262144 UTF-8 bytes.".to_string())
    );
    assert_eq!(
        refusal("# x", "nope", &["html"]),
        (400, "unknown_source_format", "Unknown input format: nope".to_string())
    );
    assert_eq!(
        refusal("# x", "md", &[]),
        (400, "missing_target", "Select at least one output format.".to_string())
    );
    assert_eq!(
        refusal("# x", "md", &["html"; 11]),
        (
            400,
            "too_many_targets",
            "At most 10 output formats may be requested.".to_string()
        )
    );
    assert_eq!(
        refusal("# x", "md", &["html", "Bogus", "md"]),
        (400, "unknown_target_format", "Unknown output format: Bogus".to_string())
    );
    assert_eq!(
        refusal("# x", "md", &["typ", "MD", "markdown"]),
        (
            400,
            "duplicate_target",
            "Output format requested more than once: Markdown".to_string()
        )
    );
}

#[test]
fn checks_run_in_order() {
    assert_eq!(refusal("", "nope", &[]).1, "empty_input");
    assert_eq!(refusal("# x", "nope", &[]).1, "unknown_source_format");
    assert_eq!(refusal("# x", "md", &["nope"; 11]).1, "too_many_targets");
}

#[test]
fn valid_requests_resolve_their_formats() {
    let v = validate_request(request("# x", "MD", &["html", "Typst"])).unwrap();
    assert_eq!(v.input, "# x");
    assert_eq!(v.from, Format::Markdown);
    assert_eq!(v.to, vec![Format::Html, Format::Typst]);

    let limit = "é".repeat(131_072);
    assert!(validate_request(request(&limit, "md", &["html"])).is_ok());
    let limit = "a".repeat(262_144);
    assert!(validate_request(request(&limit, "md", &["html"])).is_ok());
}

#[test]
fn conversions_name_each_target() {
    let response = convert(request("Some *text*.\n", "md", &["rst", "tex", "dbk"])).unwrap();
    let ids: Vec<&str> = response.results.iter().map(|r| r.format.as_str()).collect();
    assert_eq!(ids, vec!["rst", "tex", "dbk"]);
    for result in &response.results {
        let output = result.output.as_ref().unwrap();
        assert!(output.ends_with('\n') && !output.ends_with("\n\n"));
        assert!(result.error.is_none());
        assert!(result.preservation.is_some());
    }
}

#[test]
fn parse_errors_name_the_source_format() {
    let error = convert(request("<script>x</script>", "html", &["md"])).unwrap_err();
    assert!(error.message.starts_with("Could not parse HTML: Parse error: "));
}

#[test]
fn request_headers_are_checked() {
    assert!(check_content_type("application/json").is_none());
    assert!(check_content_type("Application/JSON; charset=utf-8").is_none());
    let error = check_content_type("text/plain").unwrap();
    assert_eq!(error.status, 415);
    assert_eq!(error.code, "unsupported_media_type");
    assert_eq!(error.message, "Use Content-Type: application/json.");
    assert!(check_content_type("").is_some());

    assert!(check_content_length(None).is_none());
    assert!(check_content_length(Some("307200")).is_none());
    assert!(check_content_length(Some("+12")).is_none());
    let error = check_content_length(Some("307201")).unwrap();
    assert_eq!(error.status, 413);
    assert_eq!(error.code, "request_too_large");
    assert_eq!(error.message, "Request bodies are limited to 307200 bytes.");
    assert!(check_content_length(Some("lots")).is_some());
    assert!(check_content_length(Some("")).is_some());
    assert!(check_content_length(Some("99999999999999999999999")).is_some());

    let error = invalid_json("missing field `to`");
    assert_eq!(error.status, 400);
    assert_eq!(error.code, "invalid_json");
    assert_eq!(error.message, "Invalid request body: missing field `to`");
}

#[test]
fn formats_are_listed_in_order() {
    let formats = supported_formats();
    let ids: Vec<&str> = formats.iter().map(|f| f.id).collect();
    assert_eq!(
        ids,
        vec!["md", "adoc", "rst", "typ", "tex", "dj", "org", "textile", "html", "dbk"]
    );
    assert_eq!(formats[2].name, "reStructuredText");
    assert_eq!(formats[9].name, "DocBook");
}
