//! The conversion service behind the web workbench: request validation, the
//! conversion of one source into several targets with a preservation report
//! for each, and the checks made on an HTTP request before its body is read.
use vstd::prelude::*;

use crate::ast::Document;
use crate::error::parse_error_text;
use crate::format::{id_spec, name_spec, named_format, Format};
use crate::preservation::{analyze, PreservationReport, PreservationStatus};
use crate::text::{
    all_ws, ascii_lower_spec, byte_len, chars_of, chars_of_string, decimal, digits_value,
    has_prefix, is_blank, push_decimal, push_str, starts_with_lit, string_of, to_ascii_lower,
    unsigned_digits, utf8_len, parse_unsigned,
};

verus! {

/// The largest input accepted, in UTF-8 bytes.
pub const MAX_INPUT_BYTES: usize = 262144;

/// The largest HTTP request body accepted, in bytes.
pub const MAX_HTTP_BODY_BYTES: usize = 307200;

/// The most target formats one request may name.
pub const MAX_TARGETS: usize = 10;

/// A conversion request as it arrives: the source text, the name of its
/// format and the names of the formats wanted.
#[derive(Debug)]
pub struct ConvertRequest {
    pub input: String,
    pub from: String,
    pub to: Vec<String>,
}

/// A request whose format names have all been resolved.
#[derive(Debug)]
pub struct ValidatedRequest {
    pub input: String,
    pub from: Format,
    pub to: Vec<Format>,
}

/// The outcome for one target format.
#[derive(Debug)]
pub struct ConvertResult {
    pub format: String,
    pub output: Option<String>,
    pub error: Option<String>,
    pub preservation: Option<PreservationReport>,
}

#[derive(Debug)]
pub struct ConvertResponse {
    pub results: Vec<ConvertResult>,
}

/// A format as the format listing shows it.
#[derive(Debug)]
pub struct FormatInfo {
    pub id: &'static str,
    pub name: &'static str,
}

/// A refused request: the HTTP status, a stable code and a message for people.
#[derive(Debug)]
pub struct ApiError {
    pub status: u16,
    pub code: &'static str,
    pub message: String,
}

/// The error that `api_error` builds from these parts.
pub open spec fn api_error_is(e: ApiError, status: u16, code: Seq<char>, message: Seq<char>) -> bool {
    &&& e.status == status
    &&& e.code@ == code
    &&& e.message@ == message
}

/// An error described by its parts.
pub struct ErrorSpec {
    pub status: u16,
    pub code: Seq<char>,
    pub message: Seq<char>,
}

pub open spec fn error_spec(status: u16, code: Seq<char>, message: Seq<char>) -> ErrorSpec {
    ErrorSpec { status, code, message }
}

pub open spec fn matches_error(e: ApiError, s: ErrorSpec) -> bool {
    api_error_is(e, s.status, s.code, s.message)
}

/// The targets named from index `j` on, resolved in order after those in
/// `seen`: the first unknown name or the first format named twice refuses the
/// request.
pub open spec fn resolve_targets(to: Seq<Seq<char>>, j: nat, seen: Seq<Format>) -> Result<
    Seq<Format>,
    ErrorSpec,
>
    decreases to.len() - j,
{
    if j >= to.len() {
        Ok(seen)
    } else {
        match named_format(to[j as int]) {
            None => Err(
                error_spec(400, "unknown_target_format"@, "Unknown output format: "@ + to[j as int]),
            ),
            Some(f) => if seen.contains(f) {
                Err(
                    error_spec(
                        400,
                        "duplicate_target"@,
                        "Output format requested more than once: "@ + name_spec(f),
                    ),
                )
            } else {
                resolve_targets(to, j + 1, seen.push(f))
            },
        }
    }
}

/// What validating a request with these parts gives: the source format and
/// the target formats, or the first error in the order the checks are made.
pub open spec fn validation(input: Seq<char>, from: Seq<char>, to: Seq<Seq<char>>) -> Result<
    (Format, Seq<Format>),
    ErrorSpec,
> {
    if all_ws(input) {
        Err(error_spec(400, "empty_input"@, "Enter some markup to convert."@))
    } else if utf8_len(input) > MAX_INPUT_BYTES {
        Err(
            error_spec(
                413,
                "input_too_large"@,
                "Input is limited to "@ + decimal(MAX_INPUT_BYTES as nat) + " UTF-8 bytes."@,
            ),
        )
    } else {
        match named_format(from) {
            None => Err(error_spec(400, "unknown_source_format"@, "Unknown input format: "@ + from)),
            Some(f) => if to.len() == 0 {
                Err(error_spec(400, "missing_target"@, "Select at least one output format."@))
            } else if to.len() > MAX_TARGETS {
                Err(
                    error_spec(
                        400,
                        "too_many_targets"@,
                        "At most "@ + decimal(MAX_TARGETS as nat)
                            + " output formats may be requested."@,
                    ),
                )
            } else {
                match resolve_targets(to, 0, seq![]) {
                    Ok(targets) => Ok((f, targets)),
                    Err(e) => Err(e),
                }
            },
        }
    }
}

/// The views of a list of names.
pub open spec fn name_views(v: Seq<String>) -> Seq<Seq<char>> {
    v.map_values(|s: String| s@)
}

/// Builds an error from its parts.
pub(crate) fn api_error(status: u16, code: &'static str, message: String) -> (e: ApiError)
    ensures
        api_error_is(e, status, code@, message@),
{
    ApiError { status, code, message }
}

/// An error whose message is the characters of `message`.
fn error_from(status: u16, code: &'static str, message: &Vec<char>) -> (e: ApiError)
    ensures
        api_error_is(e, status, code@, message@),
{
    api_error(status, code, string_of(message))
}

/// Every supported format with its identifier and name, in listing order.
pub fn supported_formats() -> (v: Vec<FormatInfo>)
    ensures
        v@.len() == 10,
        forall|i: int|
            0 <= i < 10 ==> {
                let f = crate::format::all_spec()[i];
                &&& (#[trigger] v@[i]).id@ == id_spec(f)
                &&& v@[i].name@ == name_spec(f)
            },
{
    let all = Format::all();
    let mut v: Vec<FormatInfo> = Vec::new();
    let mut i: usize = 0;
    while i < all.len()
        invariant
            i <= all.len(),
            all@ == crate::format::all_spec(),
            v@.len() == i,
            forall|k: int|
                0 <= k < i ==> {
                    let f = all@[k];
                    &&& (#[trigger] v@[k]).id@ == id_spec(f)
                    &&& v@[k].name@ == name_spec(f)
                },
        decreases all.len() - i,
    {
        let f = all[i];
        v.push(FormatInfo { id: f.id(), name: f.name() });
        i += 1;
    }
    v
}

/// Whether `f` occurs in `v`.
fn contains_format(v: &Vec<Format>, f: Format) -> (b: bool)
    ensures
        b == v@.contains(f),
{
    let mut k: usize = 0;
    while k < v.len()
        invariant
            k <= v.len(),
            forall|j: int| 0 <= j < k ==> v@[j] != f,
        decreases v.len() - k,
    {
        if v[k] == f {
            assert(v@[k as int] == f);
            return true;
        }
        k += 1;
    }
    false
}

/// Resolves the target names, refusing an unknown name or a format named
/// twice.
fn resolve_target_names(to: &Vec<String>) -> (r: Result<Vec<Format>, ApiError>)
    ensures
        match resolve_targets(name_views(to@), 0, seq![]) {
            Ok(t) => r matches Ok(v) && v@ == t,
            Err(s) => r matches Err(e) && matches_error(e, s),
        },
{
    let ghost names = name_views(to@);
    let mut targets: Vec<Format> = Vec::new();
    let mut j: usize = 0;
    while j < to.len()
        invariant
            j <= to.len(),
            names == name_views(to@),
            resolve_targets(names, 0, seq![]) == resolve_targets(names, j as nat, targets@),
        decreases to.len() - j,
    {
        let name = &to[j];
        assert(names[j as int] == name@);
        match Format::from_name(name.as_str()) {
            None => {
                let mut m: Vec<char> = Vec::new();
                push_str(&mut m, "Unknown output format: ");
                push_str(&mut m, name.as_str());
                return Err(error_from(400, "unknown_target_format", &m));
            },
            Some(f) => {
                if contains_format(&targets, f) {
                    let mut m: Vec<char> = Vec::new();
                    push_str(&mut m, "Output format requested more than once: ");
                    push_str(&mut m, f.name());
                    return Err(error_from(400, "duplicate_target", &m));
                }
                targets.push(f);
            },
        }
        j += 1;
    }
    Ok(targets)
}

/// Checks a request and resolves its format names. The checks run in this
/// order, and the first that fails gives the error: blank input, input over
/// `MAX_INPUT_BYTES` UTF-8 bytes, an unknown source format, no target, more
/// than `MAX_TARGETS` targets, then each target in turn (unknown, or named
/// twice).
pub fn validate_request(body: ConvertRequest) -> (r: Result<ValidatedRequest, ApiError>)
    ensures
        match validation(body.input@, body.from@, name_views(body.to@)) {
            Ok((f, t)) => r matches Ok(v) && v.input@ == body.input@ && v.from == f && v.to@ == t,
            Err(s) => r matches Err(e) && matches_error(e, s),
        },
{
    let input = chars_of_string(&body.input);
    if is_blank(&input) {
        let m = chars_of("Enter some markup to convert.");
        return Err(error_from(400, "empty_input", &m));
    }
    if byte_len(&input) > MAX_INPUT_BYTES {
        let mut m: Vec<char> = Vec::new();
        push_str(&mut m, "Input is limited to ");
        push_decimal(&mut m, MAX_INPUT_BYTES as u64);
        push_str(&mut m, " UTF-8 bytes.");
        return Err(error_from(413, "input_too_large", &m));
    }
    let from = match Format::from_name(body.from.as_str()) {
        Some(f) => f,
        None => {
            let mut m: Vec<char> = Vec::new();
            push_str(&mut m, "Unknown input format: ");
            push_str(&mut m, body.from.as_str());
            return Err(error_from(400, "unknown_source_format", &m));
        },
    };
    if body.to.len() == 0 {
        let m = chars_of("Select at least one output format.");
        return Err(error_from(400, "missing_target", &m));
    }
    if body.to.len() > MAX_TARGETS {
        let mut m: Vec<char> = Vec::new();
        push_str(&mut m, "At most ");
        push_decimal(&mut m, MAX_TARGETS as u64);
        push_str(&mut m, " output formats may be requested.");
        return Err(error_from(400, "too_many_targets", &m));
    }
    let to = match resolve_target_names(&body.to) {
        Ok(t) => t,
        Err(e) => return Err(e),
    };
    Ok(ValidatedRequest { input: body.input, from, to })
}

/// Validates a request, reads its input and writes it in every target
/// format, with a report for each target on what reading the output back
/// keeps. A request that fails validation is refused with that error;
/// otherwise the answer is what `served_from` gives for what `parse` reads
/// from the input: every output written from the one document read, or the
/// `parse_error` answer with the reader's error.
pub fn convert(body: ConvertRequest) -> (r: Result<ConvertResponse, ApiError>)
    ensures
        match validation(body.input@, body.from@, name_views(body.to@)) {
            Err(s) => r matches Err(e) && matches_error(e, s),
            Ok((f, t)) => exists|p: Result<Document, crate::error::ParseError>| #[trigger] crate::reading_allows(body.input@, f, p)
                && served_from(p, f, t, r),
        },
{
    let request = match validate_request(body) {
        Ok(v) => v,
        Err(e) => return Err(e),
    };
    let p = crate::parse(request.input.as_str(), request.from);
    let ghost pg = p;
    let document = match p {
        Ok(d) => d,
        Err(error) => {
            let mut m: Vec<char> = Vec::new();
            push_str(&mut m, "Could not parse ");
            push_str(&mut m, request.from.name());
            push_str(&mut m, ": ");
            let detail = error.message();
            push_str(&mut m, detail.as_str());
            proof {
                assert(m@ == "Could not parse "@ + name_spec(request.from) + ": "@ + parse_error_text(error));
            }
            let r = Err(error_from(400, "parse_error", &m));
            assert(crate::reading_allows(request.input@, request.from, pg) && served_from(pg, request.from, request.to@, r));
            return r;
        },
    };
    let mut results: Vec<ConvertResult> = Vec::new();
    let mut i: usize = 0;
    while i < request.to.len()
        invariant
            i <= request.to.len(),
            results@.len() == i,
            forall|k: int| 0 <= k < i ==> converted_for(#[trigger] results@[k], request.to@[k], document),
        decreases request.to.len() - i,
    {
        let format = request.to[i];
        let result = match crate::emit(&document, format) {
            Ok(output) => {
                let report = analyze(&document, output.as_str(), format);
                let ghost out = output@;
                let c = ConvertResult {
                    format: format.id().to_owned(),
                    output: Some(output),
                    error: None,
                    preservation: Some(report),
                };
                proof {
                    let pr = choose|pr: Result<Document, crate::error::ParseError>| #[trigger] crate::reading_allows(out, format, pr)
                        && crate::preservation::report_for(document, pr, report);
                    assert(crate::reading_allows(out, format, pr) && crate::preservation::report_for(document, pr, report));
                    assert(c.output->0@ == out);
                    assert(c.preservation->0 == report);
                }
                c
            },
            Err(error) => ConvertResult {
                format: format.id().to_owned(),
                output: None,
                error: Some(error.message()),
                preservation: None,
            },
        };
        results.push(result);
        i += 1;
    }
    assert(all_converted(results@, request.to@, document));
    let r = Ok(ConvertResponse { results });
    assert(crate::reading_allows(request.input@, request.from, pg) && served_from(pg, request.from, request.to@, r));
    r
}

/// Whether `r` is what serving gives when reading the input in `f` gave `p`:
/// for the document read, the results for the targets `t`, all written from
/// it; for a reading error, the `parse_error` answer that names the format
/// and the reader's message.
pub open spec fn served_from(
    p: Result<Document, crate::error::ParseError>,
    f: Format,
    t: Seq<Format>,
    r: Result<ConvertResponse, ApiError>,
) -> bool {
    match p {
        Ok(d) => r matches Ok(resp) && all_converted(resp.results@, t, d),
        Err(e) => r matches Err(err) && api_error_is(
            err,
            400,
            "parse_error"@,
            "Could not parse "@ + name_spec(f) + ": "@ + parse_error_text(e),
        ),
    }
}

/// The result for one target: named by the target's identifier, with the
/// text that writing `d` in the target gives, which ends with exactly one
/// newline, and the report that `analyze` gives for reading that text back:
/// it finds nothing changed exactly when it lists no change.
pub open spec fn converted_for(r: ConvertResult, f: Format, d: Document) -> bool {
    &&& r.format@ == id_spec(f)
    &&& (r.output matches Some(o) && crate::formats::common::ends_with_single_newline(o@) && o@
        == crate::written_text(d.children@, f))
    &&& r.error is None
    &&& (r.output matches Some(o) && (r.preservation matches Some(p) && (p.status == PreservationStatus::Preserved
        <==> p.changes@.len() == 0) && exists|pr: Result<Document, crate::error::ParseError>|
        #[trigger] crate::reading_allows(o@, f, pr) && crate::preservation::report_for(d, pr, p)))
}

/// Every result is the one for its target, all written from the document `d`.
pub open spec fn all_converted(results: Seq<ConvertResult>, t: Seq<Format>, d: Document) -> bool {
    &&& results.len() == t.len()
    &&& forall|i: int| 0 <= i < t.len() ==> converted_for(#[trigger] results[i], t[i], d)
}

/// A `Content-Type` that announces JSON: it starts with `application/json`,
/// compared without regard to ASCII case.
pub open spec fn announces_json(content_type: Seq<char>) -> bool {
    has_prefix(ascii_lower_spec(content_type), "application/json"@)
}

/// Refuses a request whose `Content-Type` (empty when absent) does not
/// announce JSON.
pub fn check_content_type(content_type: &str) -> (r: Option<ApiError>)
    ensures
        announces_json(content_type@) ==> r is None,
        !announces_json(content_type@) ==> (r matches Some(e) && api_error_is(
            e,
            415,
            "unsupported_media_type"@,
            "Use Content-Type: application/json."@,
        )),
{
    let lower = to_ascii_lower(&chars_of(content_type));
    if starts_with_lit(&lower, "application/json") {
        None
    } else {
        let m = chars_of("Use Content-Type: application/json.");
        Some(error_from(415, "unsupported_media_type", &m))
    }
}

/// A `Content-Length` over the limit: one that does not read as a number is
/// taken as the largest possible.
pub open spec fn declares_too_large(content_length: Seq<char>) -> bool {
    match unsigned_digits(content_length) {
        Some(d) => digits_value(d) > MAX_HTTP_BODY_BYTES,
        None => true,
    }
}

/// Refuses a request whose `Content-Length`, where it has one, exceeds
/// `MAX_HTTP_BODY_BYTES`.
pub fn check_content_length(content_length: Option<&str>) -> (r: Option<ApiError>)
    ensures
        match content_length {
            Some(l) => if declares_too_large(l@) {
                r matches Some(e) && api_error_is(
                    e,
                    413,
                    "request_too_large"@,
                    "Request bodies are limited to "@ + decimal(MAX_HTTP_BODY_BYTES as nat)
                        + " bytes."@,
                )
            } else {
                r is None
            },
            None => r is None,
        },
{
    match content_length {
        None => None,
        Some(l) => {
            let digits = chars_of(l);
            match parse_unsigned(&digits, MAX_HTTP_BODY_BYTES as u64) {
                Some(_) => None,
                None => {
                    let mut m: Vec<char> = Vec::new();
                    push_str(&mut m, "Request bodies are limited to ");
                    push_decimal(&mut m, MAX_HTTP_BODY_BYTES as u64);
                    push_str(&mut m, " bytes.");
                    Some(error_from(413, "request_too_large", &m))
                },
            }
        },
    }
}

/// The error for a request body that is not a valid request: `detail` says
/// what was wrong with it.
pub fn invalid_json(detail: &str) -> (e: ApiError)
    ensures
        api_error_is(e, 400, "invalid_json"@, "Invalid request body: "@ + detail@),
{
    let mut m: Vec<char> = Vec::new();
    push_str(&mut m, "Invalid request body: ");
    push_str(&mut m, detail);
    error_from(400, "invalid_json", &m)
}

} // verus!
