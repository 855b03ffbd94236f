//! The errors that parsing, emitting and converting report.
use vstd::prelude::*;

verus! {

#[derive(Debug, PartialEq)]
pub enum ParseError {
    InvalidInput(String),
}

#[derive(Debug, PartialEq)]
pub enum EmitError {
    UnsupportedFeature(String),
}

#[derive(Debug, PartialEq)]
pub enum ConvertError {
    Parse(ParseError),
    Emit(EmitError),
}

/// How a parse error is displayed: `Parse error: ` and the detail.
pub open spec fn parse_error_text(e: ParseError) -> Seq<char> {
    "Parse error: "@ + match e {
        ParseError::InvalidInput(d) => d@,
    }
}

/// How an emit error is displayed: `Emit error: ` and the detail.
pub open spec fn emit_error_text(e: EmitError) -> Seq<char> {
    "Emit error: "@ + match e {
        EmitError::UnsupportedFeature(d) => d@,
    }
}

/// How a conversion error is displayed: as the error it wraps.
pub open spec fn convert_error_text(e: ConvertError) -> Seq<char> {
    match e {
        ConvertError::Parse(p) => parse_error_text(p),
        ConvertError::Emit(m) => emit_error_text(m),
    }
}

impl ParseError {
    /// The error's message as it is displayed: `Parse error: ` and the detail.
    pub fn message(&self) -> (m: String)
        ensures
            m@ == parse_error_text(*self),
    {
        let mut out: Vec<char> = Vec::new();
        crate::text::push_str(&mut out, "Parse error: ");
        match self {
            ParseError::InvalidInput(d) => crate::text::push_string(&mut out, d),
        }
        crate::text::string_of(&out)
    }

    /// An `InvalidInput` error with the given detail.
    pub fn invalid(detail: &str) -> (e: ParseError)
        ensures
            match e {
                ParseError::InvalidInput(d) => d@ == detail@,
            },
    {
        ParseError::InvalidInput(detail.to_owned())
    }
}

impl EmitError {
    /// The error's message as it is displayed: `Emit error: ` and the detail.
    pub fn message(&self) -> (m: String)
        ensures
            m@ == emit_error_text(*self),
    {
        let mut out: Vec<char> = Vec::new();
        crate::text::push_str(&mut out, "Emit error: ");
        match self {
            EmitError::UnsupportedFeature(d) => crate::text::push_string(&mut out, d),
        }
        crate::text::string_of(&out)
    }
}

impl ConvertError {
    /// The error's message: that of the parse or emit error it wraps.
    pub fn message(&self) -> (m: String)
        ensures
            m@ == convert_error_text(*self),
    {
        match self {
            ConvertError::Parse(e) => e.message(),
            ConvertError::Emit(e) => e.message(),
        }
    }
}

} // verus!
