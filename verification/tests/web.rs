use morph::preservation::PreservationStatus;
use morph::web::{convert, validate_request, ConvertRequest, MAX_INPUT_BYTES, MAX_TARGETS};

fn request(input: &str, from: &str, to: &[&str]) -> ConvertRequest {
    ConvertRequest {
        input: input.to_string(),
        from: from.to_string(),
        to: to.iter().map(|format| (*format).to_string()).collect(),
    }
}

#[test]
fn converts_and_reports_preservation() {
    let response = convert(request("# Hello\n", "md", &["html", "adoc"])).unwrap();

    assert_eq!(response.results.len(), 2);
    assert!(
        response
            .results
            .iter()
            .all(|result| result.output.is_some())
    );
    assert!(response.results.iter().all(|result| {
        result
            .preservation
            .as_ref()
            .is_some_and(|report| report.status == PreservationStatus::Preserved)
    }));
}

#[test]
fn validates_empty_and_oversized_input() {
    assert_eq!(
        validate_request(request("  ", "md", &["html"]))
            .unwrap_err()
            .code,
        "empty_input"
    );
    let oversized = "a".repeat(MAX_INPUT_BYTES + 1);
    let error = validate_request(request(&oversized, "md", &["html"])).unwrap_err();
    assert_eq!(error.status, 413);
    assert_eq!(error.code, "input_too_large");
}

#[test]
fn validates_source_and_target_formats() {
    assert_eq!(
        validate_request(request("# x", "nope", &["html"]))
            .unwrap_err()
            .code,
        "unknown_source_format"
    );
    assert_eq!(
        validate_request(request("# x", "md", &["nope"]))
            .unwrap_err()
            .code,
        "unknown_target_format"
    );
    assert_eq!(
        validate_request(request("# x", "md", &[]))
            .unwrap_err()
            .code,
        "missing_target"
    );
}

#[test]
fn rejects_duplicate_aliases_and_excess_targets() {
    assert_eq!(
        validate_request(request("# x", "md", &["md", "markdown"]))
            .unwrap_err()
            .code,
        "duplicate_target"
    );
    let formats = vec!["md"; MAX_TARGETS + 1];
    assert_eq!(
        validate_request(request("# x", "md", &formats))
            .unwrap_err()
            .code,
        "too_many_targets"
    );
}

#[test]
fn parse_errors_are_structured() {
    let error = convert(request("<script>x</script>", "html", &["md"])).unwrap_err();
    assert_eq!(error.status, 400);
    assert_eq!(error.code, "parse_error");
}
